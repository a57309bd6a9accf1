//! The single-pass scanner that turns a cleaned text into the node arena,
//! the instance order and the key index of a document.

use vstd::prelude::*;
use crate::chars::clean;
use crate::chars::is_control;
use crate::chars::is_int_literal;
use crate::chars::is_float_literal;
use crate::chars::is_bool_literal;
use crate::chars::spec_find_control;
use crate::chars::lemma_find_control;
use crate::chars::spec_clean;
use crate::chars::spec_is_control;
use crate::chars::str_to_chars;
use crate::doc::Hson;
use crate::doc::HsonError;
use crate::node::Kind;
use crate::node::Node;
use crate::nodemap::lemma_find_id;
use crate::scan::Scan;
use crate::scan::ScanNode;
use crate::scan::closed_node;
use crate::scan::lemma_prev_opened_matches;
use crate::scan::lemma_scan_none_sticks;
use crate::scan::scan_matches;
use crate::scan::scan_node_matches;
use crate::scan::spec_accepts;
use crate::scan::spec_parse_result;
use crate::scan::spec_prev_opened_m;
use crate::scan::spec_scan;
use crate::scan::spec_scan_step;
use crate::scan::with_child;
use crate::nodemap::lemma_find_id_push;
use crate::nodemap::lemma_find_id_same_ids;
use crate::nodemap::lemma_ids_contains_push;
use crate::nodemap::spec_find_id;

verus! {

/// A primitive literal's kind: such a node closes in the step it opens and
/// never becomes a parent.
pub open spec fn spec_is_primitive(k: Kind) -> bool {
    k == Kind::Integer || k == Kind::Float || k == Kind::Bool
}

/// The scanner's counters for brackets and string state.
pub struct Controls {
    pub curly_brackets: usize,
    pub square_brackets: usize,
    pub double_quotes: usize,
}

/// Steps the counters over one control character. The double-quote counter
/// toggles on an unescaped quote; the bracket counters follow their pairs.
pub fn controls_count(controls: &mut Controls, c: char, previous: char)
    requires
        old(controls).curly_brackets < usize::MAX,
        old(controls).square_brackets < usize::MAX,
    ensures
        final(controls).curly_brackets == (if c == '{' {
            old(controls).curly_brackets + 1
        } else if c == '}' && old(controls).curly_brackets > 0 {
            old(controls).curly_brackets - 1
        } else {
            old(controls).curly_brackets as int
        }),
        final(controls).square_brackets == (if c == '[' {
            old(controls).square_brackets + 1
        } else if c == ']' && old(controls).square_brackets > 0 {
            old(controls).square_brackets - 1
        } else {
            old(controls).square_brackets as int
        }),
        final(controls).double_quotes == (if c == '"' {
            if old(controls).double_quotes > 0 && previous != '\\' {
                0
            } else {
                1
            }
        } else {
            old(controls).double_quotes as int
        }),
{
    if c == '{' {
        controls.curly_brackets = controls.curly_brackets + 1;
    } else if c == '}' {
        if controls.curly_brackets > 0 {
            controls.curly_brackets = controls.curly_brackets - 1;
        }
    } else if c == '"' {
        if controls.double_quotes > 0 && previous != '\\' {
            controls.double_quotes = 0;
        } else {
            controls.double_quotes = 1;
        }
    } else if c == '[' {
        controls.square_brackets = controls.square_brackets + 1;
    } else if c == ']' {
        if controls.square_brackets > 0 {
            controls.square_brackets = controls.square_brackets - 1;
        }
    }
}

/// Finds the end of the literal starting at `start`: the position of the
/// next control character. Fails when none follows.
pub fn extract_value(data: &[char], start: usize) -> (r: Result<usize, HsonError>)
    requires
        start < data@.len(),
    ensures
        match r {
            Ok(n) => start < n < data@.len() && n == spec_find_control(data@, start + 1),
            Err(_) => spec_find_control(data@, start + 1) == data@.len(),
        },
{
    let len = data.len();
    let mut n = start + 1;
    while n < len
        invariant
            len == data@.len(),
            start + 1 <= n <= data@.len(),
            forall|j: int| start + 1 <= j < n ==> !spec_is_control(data@[j]),
        decreases data@.len() - n,
    {
        if is_control(data[n]) {
            proof {
                lemma_find_control_skip(data@, start + 1, n as int);
            }
            return Ok(n);
        }
        n = n + 1;
    }
    proof {
        lemma_find_control_skip(data@, start + 1, data@.len() as int);
    }
    Err(HsonError::MalformedInput(start))
}

/// Skipping non-control positions leaves the control find position alone.
proof fn lemma_find_control_skip(s: Seq<char>, lo: int, j: int)
    requires
        0 <= lo <= j <= s.len(),
        forall|i: int| lo <= i < j ==> !spec_is_control(s[i]),
    ensures
        spec_find_control(s, lo) == spec_find_control(s, j),
    decreases j - lo,
{
    if lo < j {
        lemma_find_control_skip(s, lo + 1, j);
    }
}

/// Classifies the construct starting at position `i`: a delimiter opens an
/// object, array or string; anything else must read as an integer, a
/// floating-point number or a boolean up to the next control character.
pub fn get_node_kind(data: &[char], i: usize) -> (r: Result<Kind, HsonError>)
    requires
        i < data@.len(),
    ensures
        data@[i as int] == '{' ==> r == Ok::<Kind, HsonError>(Kind::Node),
        data@[i as int] == '[' ==> r == Ok::<Kind, HsonError>(Kind::Array),
        data@[i as int] == '"' ==> r == Ok::<Kind, HsonError>(Kind::String),
        r is Ok ==> r->Ok_0 != Kind::Null,
        (data@[i as int] != '{' && data@[i as int] != '[' && data@[i as int] != '"') ==> {
            let n = spec_find_control(data@, i + 1);
            if n == data@.len() {
                r is Err
            } else {
                let lit = data@.subrange(i as int, n);
                if crate::chars::spec_is_int_literal(lit) {
                    r == Ok::<Kind, HsonError>(Kind::Integer)
                } else if crate::chars::spec_is_float_literal(lit) {
                    r == Ok::<Kind, HsonError>(Kind::Float)
                } else if crate::chars::spec_is_bool_literal(lit) {
                    r == Ok::<Kind, HsonError>(Kind::Bool)
                } else {
                    r is Err
                }
            }
        },
{
    let c = data[i];
    if c == '{' {
        Ok(Kind::Node)
    } else if c == '[' {
        Ok(Kind::Array)
    } else if c == '"' {
        Ok(Kind::String)
    } else {
        let n = match extract_value(data, i) {
            Ok(n) => n,
            Err(e) => {
                return Err(e);
            },
        };
        let mut lit: Vec<char> = Vec::new();
        let mut j: usize = i;
        while j < n
            invariant
                i <= j <= n <= data@.len(),
                lit@ == data@.subrange(i as int, j as int),
            decreases n - j,
        {
            lit.push(data[j]);
            proof {
                assert(lit@ =~= data@.subrange(i as int, j + 1 as int));
            }
            j = j + 1;
        }
        if is_int_literal(lit.as_slice()) {
            Ok(Kind::Integer)
        } else if is_float_literal(lit.as_slice()) {
            Ok(Kind::Float)
        } else if is_bool_literal(lit.as_slice()) {
            Ok(Kind::Bool)
        } else {
            Err(HsonError::MalformedInput(i))
        }
    }
}

/// The position of the nearest double quote strictly before `from`, or a
/// negative number when none stands there.
pub open spec fn spec_rfind_quote(s: Seq<char>, from: int) -> int
    decreases from,
{
    if from <= 0 {
        -1
    } else if s[from - 1] == '"' {
        from - 1
    } else {
        spec_rfind_quote(s, from - 1)
    }
}

/// Where the key whose value starts at position `i` lies: the nearest
/// quote below `i` closes it, the nearest quote below that opens it, and
/// the range holds the content between them. Nothing is found when fewer
/// than two quotes precede the position.
pub open spec fn spec_key_position(s: Seq<char>, i: int) -> Option<(int, int)> {
    let q1 = spec_rfind_quote(s, i);
    if q1 < 0 {
        None
    } else {
        let q0 = spec_rfind_quote(s, q1);
        if q0 < 0 {
            None
        } else {
            Some((q0 + 1, q1))
        }
    }
}

/// Locates the key whose value starts at position `i`: walking backwards,
/// the first quote closes the key, the next one opens it; the range holds
/// the content between them.
pub fn get_node_key_position(data: &[char], i: usize) -> (r: Result<[usize; 2], HsonError>)
    requires
        i <= data@.len(),
    ensures
        match r {
            Ok(k) => {
                &&& spec_key_position(data@, i as int) == Some((k[0] as int, k[1] as int))
                &&& 1 <= k[0] && k[0] <= k[1] && k[1] < i
                &&& data@[k[1] as int] == '"'
                &&& data@[k[0] - 1] == '"'
            },
            Err(e) => spec_key_position(data@, i as int) is None && e == HsonError::MalformedInput(
                0,
            ),
        },
{
    let k1 = match rfind_quote(data, i) {
        Some(q) => q,
        None => {
            return Err(HsonError::MalformedInput(0));
        },
    };
    let q0 = match rfind_quote(data, k1) {
        Some(q) => q,
        None => {
            return Err(HsonError::MalformedInput(0));
        },
    };
    Ok([q0 + 1, k1])
}

/// The position of the last double quote before `from`, if any.
fn rfind_quote(data: &[char], from: usize) -> (r: Option<usize>)
    requires
        from <= data@.len(),
    ensures
        match r {
            Some(q) => q < from && data@[q as int] == '"' && q as int == spec_rfind_quote(
                data@,
                from as int,
            ),
            None => spec_rfind_quote(data@, from as int) < 0,
        },
{
    let mut p = from;
    while p > 0
        invariant
            p <= from <= data@.len(),
            spec_rfind_quote(data@, from as int) == spec_rfind_quote(data@, p as int),
        decreases p,
    {
        p = p - 1;
        if data[p] == '"' {
            return Some(p);
        }
    }
    None
}

/// Whether the quote at position `p` opens a key rather than a value: the
/// scan runs forward to the next unescaped double quote and answers "key"
/// exactly when a colon follows it at once (the empty key included); any
/// other ending, or the end of the text, means a value.
pub open spec fn spec_before_colons(s: Seq<char>, p: int) -> bool
    decreases s.len() - p,
{
    let q = p + 1;
    if p < 0 || q >= s.len() {
        false
    } else if s[q] == '"' && s[q - 1] != '\\' {
        q + 1 < s.len() && s[q + 1] == ':'
    } else {
        spec_before_colons(s, q)
    }
}

/// Decides whether the quote at position `i` opens a key rather than a
/// value, by the forward scan the predicate describes.
pub fn is_before_colons(data: &[char], i: usize) -> (r: bool)
    requires
        i < data@.len(),
    ensures
        r == spec_before_colons(data@, i as int),
{
    let len = data.len();
    let mut p = i;
    loop
        invariant
            len == data@.len(),
            i <= p < len,
            spec_before_colons(data@, i as int) == spec_before_colons(data@, p as int),
        decreases data@.len() - p,
    {
        p = p + 1;
        if p >= len {
            return false;
        }
        if data[p] == '"' && data[p - 1] != '\\' {
            if p + 1 < len {
                return data[p + 1] == ':';
            } else {
                return false;
            }
        }
    }
}

/// The greatest arena position below `from` holding a node that is still
/// open, qualifies under the primitive skip, and matches the kind (with
/// `Null` standing for any kind) — or a negative number when none does.
pub open spec fn spec_prev_opened(
    nodes: Seq<Node>,
    from: int,
    skip_primitives: bool,
    kind: Kind,
) -> int
    decreases from,
{
    if from <= 0 || from > nodes.len() {
        -1
    } else {
        let n = nodes[from - 1];
        if n.opened && !(skip_primitives && spec_is_primitive(n.kind)) && (kind == Kind::Null
            || n.kind == kind) {
            from - 1
        } else {
            spec_prev_opened(nodes, from - 1, skip_primitives, kind)
        }
    }
}

impl Hson {
    /// Walks the arena backwards from a position for the most recent node
    /// that is still open, optionally skipping primitives and matching a
    /// kind, with `Null` standing for any kind.
    pub fn get_previous_opened_node(&self, from: usize, skip_primitives: bool, kind: Kind) -> (r:
        Result<usize, HsonError>)
        requires
            from <= self.nodes@.len(),
        ensures
            match r {
                Ok(p) => {
                    &&& p as int == spec_prev_opened(
                        self.nodes@,
                        from as int,
                        skip_primitives,
                        kind,
                    )
                    &&& p < from
                    &&& self.nodes@[p as int].opened
                    &&& (kind != Kind::Null ==> self.nodes@[p as int].kind == kind)
                    &&& (skip_primitives ==> !spec_is_primitive(self.nodes@[p as int].kind))
                },
                Err(e) => spec_prev_opened(self.nodes@, from as int, skip_primitives, kind) < 0
                    && e == HsonError::MalformedInput(0),
            },
    {
        let mut l = from;
        loop
            invariant
                l <= from <= self.nodes@.len(),
                spec_prev_opened(self.nodes@, from as int, skip_primitives, kind)
                    == spec_prev_opened(self.nodes@, l as int, skip_primitives, kind),
            decreases l,
        {
            if l == 0 {
                return Err(HsonError::MalformedInput(0));
            }
            l = l - 1;
            let n = self.nodes.at(l);
            if n.opened {
                let is_prim = match n.kind {
                    Kind::Float => true,
                    Kind::Integer => true,
                    Kind::Bool => true,
                    _ => false,
                };
                if skip_primitives && is_prim {
                    // primitives never become parents
                } else {
                    let matches_kind = match kind {
                        Kind::Null => true,
                        _ => kind == n.kind,
                    };
                    if matches_kind {
                        return Ok(l);
                    }
                }
            }
        }
    }
}


impl Hson {
    /// Opens a new node at the end of the arena while a text is being
    /// read: hands it the next identifier and instance, and records it in
    /// its parent's child list.
    fn push_parse_node(
        &mut self,
        root: bool,
        kind: Kind,
        parent_pos: usize,
        key: [usize; 2],
        value: [usize; 2],
        Ghost(buf): Ghost<Seq<char>>,
        Ghost(i): Ghost<int>,
    )
        requires
            old(self).parse_inv(buf, i),
            old(self).spec_id_count() < u64::MAX,
            old(self).spec_instances() < u64::MAX,
            root <==> old(self).nodes@.len() == 0,
            !root ==> parent_pos < old(self).nodes@.len(),
            key[0] <= key[1] <= buf.len(),
            value[0] <= value[1] <= buf.len(),
            value[1] == buf.len(),
            0 <= i,
            value[0] <= i + 1,
            root ==> key[0] == 0 && key[1] == 0,
        ensures
            final(self).parse_inv(buf, i + 1),
            final(self).nodes@.len() == old(self).nodes@.len() + 1,
            final(self).spec_id_count() == old(self).spec_id_count() + 1,
            final(self).spec_instances() == old(self).spec_instances() + 1,
            final(self).spec_base() == old(self).spec_base(),
            final(self).buffer() == old(self).buffer(),
            final(self).cache_view() == old(self).cache_view(),
            final(self).indexes@ == old(self).indexes@.push(
                (old(self).spec_id_count() + 1) as u64,
            ),
            ({
                let cnt = old(self).nodes@.len() as int;
                let n = final(self).nodes@[cnt];
                &&& n.root == root
                &&& n.kind == kind
                &&& n.parent == (if root {
                    0
                } else {
                    old(self).nodes@[parent_pos as int].id
                })
                &&& n.childs@.len() == 0
                &&& n.key == key
                &&& n.value == value
                &&& n.id == old(self).spec_id_count() + 1
                &&& n.opened
                &&& n.instance == old(self).spec_instances() + 1
            }),
            !root ==> final(self).nodes@[parent_pos as int].childs@ == old(self).nodes@[
                parent_pos as int
            ].childs@.push((old(self).spec_id_count() + 1) as u64),
            !root ==> ({
                let po = old(self).nodes@[parent_pos as int];
                let pn = final(self).nodes@[parent_pos as int];
                &&& pn.root == po.root
                &&& pn.kind == po.kind
                &&& pn.parent == po.parent
                &&& pn.key == po.key
                &&& pn.value == po.value
                &&& pn.id == po.id
                &&& pn.opened == po.opened
                &&& pn.instance == po.instance
            }),
            forall|k: int|
                0 <= k < old(self).nodes@.len() && (root || k != parent_pos as int)
                    ==> final(self).nodes@[k] == old(self).nodes@[k],
    {
        proof {
            self.lemma_parse_ids_unique(buf, i);
        }
        let ghost pre = *self;
        self.id_count = self.id_count + 1;
        self.instances = self.instances + 1;
        let id = self.id_count;
        let parent: u64 = if root {
            0
        } else {
            self.indexes[parent_pos]
        };
        self.indexes.push(id);
        self.nodes.push(
            Node {
                root,
                kind,
                parent,
                childs: Vec::new(),
                key,
                value,
                id,
                opened: true,
                instance: self.instances,
            },
        );
        if !root {
            self.nodes.push_child(parent_pos, id);
        }
        proof {
            let cnt = pre.nodes@.len() as int;
            let nv = self.nodes@;
            // the fresh identifier is carried by no earlier node
            assert forall|k: int| 0 <= k < cnt implies nv[k].id != id by {
                assert(pre.parse_node_at(k, buf, i));
            }
            // find positions of earlier identifiers are unchanged
            assert forall|xid: u64|
                spec_find_id(pre.nodes@, xid, 0) < cnt implies #[trigger] spec_find_id(nv, xid, 0)
                    == spec_find_id(pre.nodes@, xid, 0) by {
                let pushed = pre.nodes@.push(nv[cnt]);
                lemma_find_id_push(pre.nodes@, nv[cnt], xid, 0);
                if root {
                    assert(nv =~= pushed);
                } else {
                    assert(nv.len() == pushed.len());
                    assert(forall|j: int| 0 <= j < nv.len() ==> nv[j].id == pushed[j].id);
                    lemma_find_id_same_ids(nv, pushed, xid, 0);
                }
            }
            assert(spec_find_id(pre.nodes@, id, 0) == cnt) by {
                lemma_find_id(pre.nodes@, id, 0);
                let f = spec_find_id(pre.nodes@, id, 0);
                if f < cnt {
                    assert(pre.parse_node_at(f, buf, i));
                    assert(pre.nodes@[f].id == id);
                }
            }
            assert(spec_find_id(nv, id, 0) == cnt) by {
                let pushed = pre.nodes@.push(nv[cnt]);
                lemma_find_id_push(pre.nodes@, nv[cnt], id, 0);
                assert(nv[cnt].id == id);
                if root {
                    assert(nv =~= pushed);
                } else {
                    assert(nv.len() == pushed.len());
                    assert(forall|j: int| 0 <= j < nv.len() ==> nv[j].id == pushed[j].id);
                    lemma_find_id_same_ids(nv, pushed, id, 0);
                }
            }
            let i1: int = i + 1;
            // every old node still satisfies the scanner's invariant
            assert forall|k: int| 0 <= k < cnt implies self.parse_node_at(k, buf, i1) by {
                assert(pre.parse_node_at(k, buf, i));
                if k > 0 {
                    let pid = pre.nodes@[k].parent;
                    assert(pre.parent_ok(k));
                    assert(spec_find_id(nv, pid, 0) == spec_find_id(pre.nodes@, pid, 0));
                    let pp = spec_find_id(pre.nodes@, pid, 0);
                    if pp == parent_pos && !root {
                        lemma_ids_contains_push(pre.nodes@[pp].childs@, id, nv[k].id);
                        assert(nv[pp].childs@ == pre.nodes@[pp].childs@.push(id));
                        assert(pre.nodes@[pp].childs@.contains(pre.nodes@[k].id));
                        assert(nv[pp].childs@.contains(nv[k].id));
                    } else {
                        assert(nv[pp] == pre.nodes@[pp]);
                    }
                    assert(self.parent_ok(k));
                }
                if !root && k == parent_pos {
                    // its child list grew by the fresh identifier
                    let cs = nv[k].childs@;
                    let oldcs = pre.nodes@[k].childs@;
                    assert(cs == oldcs.push(id));
                    assert forall|j: int| 0 <= j < cs.len() implies {
                        let c = spec_find_id(nv, #[trigger] cs[j], 0);
                        &&& k < c < nv.len()
                        &&& nv[c].parent == nv[k].id
                    } by {
                        if j < oldcs.len() {
                            assert(cs[j] == oldcs[j]);
                            assert(pre.childs_ok(k));
                            let c = spec_find_id(pre.nodes@, oldcs[j], 0);
                            assert(k < c < cnt && pre.nodes@[c].parent == pre.nodes@[k].id);
                            assert(spec_find_id(nv, cs[j], 0) == c);
                            assert(nv[c] == pre.nodes@[c]);
                        } else {
                            assert(cs[j] == id);
                            assert(spec_find_id(nv, id, 0) == cnt);
                            assert(nv[cnt].parent == nv[k].id);
                        }
                    }
                    assert forall|a: int, b: int| 0 <= a < b < cs.len() implies cs[a] != cs[b] by {
                        if b < oldcs.len() {
                            assert(pre.childs_ok(k));
                        } else {
                            assert(cs[b] == id);
                            assert(pre.childs_ok(k));
                            let c = spec_find_id(pre.nodes@, oldcs[a], 0);
                            assert(k < c < cnt && pre.nodes@[c].parent == pre.nodes@[k].id);
                            lemma_find_id(pre.nodes@, oldcs[a], 0);
                            assert(pre.nodes@[c].id == oldcs[a]);
                            assert(pre.parse_node_at(c, buf, i));
                        }
                    }
                    assert(self.childs_ok(k));
                } else {
                    assert(nv[k] == pre.nodes@[k]);
                    let cs = nv[k].childs@;
                    assert forall|j: int| 0 <= j < cs.len() implies {
                        let c = spec_find_id(nv, #[trigger] cs[j], 0);
                        &&& k < c < nv.len()
                        &&& nv[c].parent == nv[k].id
                    } by {
                        assert(pre.childs_ok(k));
                        let c = spec_find_id(pre.nodes@, cs[j], 0);
                        assert(k < c < cnt && pre.nodes@[c].parent == pre.nodes@[k].id);
                        assert(spec_find_id(nv, cs[j], 0) == c);
                        if !root && c == parent_pos {
                            assert(nv[c].parent == pre.nodes@[c].parent);
                            assert(nv[c].id == pre.nodes@[c].id);
                        } else {
                            assert(nv[c] == pre.nodes@[c]);
                        }
                    }
                    assert(self.childs_ok(k));
                }
            }
            if !root {
                assert(pre.parse_node_at(parent_pos as int, buf, i));
            }
            assert(nv[cnt].childs@.len() == 0);
            // and the fresh node satisfies it too
            assert(self.parse_node_at(cnt, buf, i + 1)) by {
                assert(nv[cnt].id == id);
                assert(nv[cnt].childs@.len() == 0);
                if !root {
                    assert(pre.parse_node_at(parent_pos as int, buf, i));
                    assert(nv[cnt].parent == pre.nodes@[parent_pos as int].id);
                    pre.lemma_pos_of_id(parent_pos as int);
                    assert(spec_find_id(pre.nodes@, nv[cnt].parent, 0) == parent_pos);
                    assert(spec_find_id(nv, nv[cnt].parent, 0) == spec_find_id(
                        pre.nodes@,
                        nv[cnt].parent,
                        0,
                    ));
                    assert(nv[parent_pos as int].childs@.contains(id)) by {
                        let cs = nv[parent_pos as int].childs@;
                        assert(cs[cs.len() - 1] == id);
                    }
                    assert(self.parent_ok(cnt));
                }
            }
            assert(self.parse_inv(buf, i + 1));
        }
    }

    /// Closes the open node at arena position `p`, rewriting its value
    /// upper bound to `v1`.
    fn close_parse_node(&mut self, p: usize, v1: usize, Ghost(buf): Ghost<Seq<char>>, Ghost(
        i,
    ): Ghost<int>)
        requires
            old(self).parse_inv(buf, i),
            p < old(self).nodes@.len(),
            old(self).nodes@[p as int].opened,
            old(self).nodes@[p as int].value[0] <= v1 <= buf.len(),
        ensures
            final(self).parse_inv(buf, i),
            final(self).nodes@.len() == old(self).nodes@.len(),
            final(self).spec_id_count() == old(self).spec_id_count(),
            final(self).spec_instances() == old(self).spec_instances(),
            final(self).spec_base() == old(self).spec_base(),
            final(self).buffer() == old(self).buffer(),
            final(self).cache_view() == old(self).cache_view(),
            final(self).indexes@ == old(self).indexes@,
            ({
                let no = old(self).nodes@[p as int];
                let nn = final(self).nodes@[p as int];
                &&& nn.root == no.root
                &&& nn.kind == no.kind
                &&& nn.parent == no.parent
                &&& nn.childs@ == no.childs@
                &&& nn.key == no.key
                &&& nn.value[0] == no.value[0]
                &&& nn.value[1] == v1
                &&& nn.id == no.id
                &&& !nn.opened
                &&& nn.instance == no.instance
            }),
            forall|k: int|
                0 <= k < old(self).nodes@.len() && k != p as int
                    ==> final(self).nodes@[k] == old(self).nodes@[k],
    {
        let ghost pre = *self;
        self.nodes.close_at(p, v1);
        proof {
            let nv = self.nodes@;
            let cnt = pre.nodes@.len() as int;
            assert forall|xid: u64| #[trigger] spec_find_id(nv, xid, 0) == spec_find_id(
                pre.nodes@,
                xid,
                0,
            ) by {
                assert(forall|j: int| 0 <= j < nv.len() ==> nv[j].id == pre.nodes@[j].id);
                lemma_find_id_same_ids(nv, pre.nodes@, xid, 0);
            }
            assert forall|k: int| 0 <= k < cnt implies self.parse_node_at(k, buf, i) by {
                assert(pre.parse_node_at(k, buf, i));
                if k > 0 {
                    assert(pre.parent_ok(k));
                    let pp = spec_find_id(pre.nodes@, pre.nodes@[k].parent, 0);
                    assert(nv[pp].childs@ == pre.nodes@[pp].childs@);
                    assert(nv[pp].id == pre.nodes@[pp].id);
                    assert(self.parent_ok(k));
                }
                let cs = nv[k].childs@;
                assert(cs == pre.nodes@[k].childs@);
                assert forall|j: int| 0 <= j < cs.len() implies {
                    let c = spec_find_id(nv, #[trigger] cs[j], 0);
                    &&& k < c < nv.len()
                    &&& nv[c].parent == nv[k].id
                } by {
                    assert(pre.childs_ok(k));
                    let c = spec_find_id(pre.nodes@, cs[j], 0);
                    assert(nv[c].parent == pre.nodes@[c].parent);
                    assert(nv[c].id == pre.nodes@[c].id);
                    assert(nv[k].id == pre.nodes@[k].id);
                }
                assert(self.childs_ok(k));
            }
        }
    }
}


impl Hson {
    /// Reads a text into this empty document: cleans it, scans it in one
    /// pass into the arena, and derives the key index. Empty input yields
    /// an empty document; non-empty input must open with a curly bracket.
    pub fn parse(&mut self, data_to_parse: &str) -> (r: Result<(), HsonError>)
        requires
            old(self).fresh(),
            old(self).wf(),
            old(self).spec_instances() + data_to_parse@.len() < u64::MAX,
            old(self).spec_id_count() + data_to_parse@.len() < u64::MAX,
        ensures
            final(self).spec_base() == old(self).spec_base(),
            r is Err ==> *final(self) == *old(self),
            r is Ok <==> spec_accepts(spec_clean(data_to_parse@)),
            r is Ok ==> scan_matches(
                final(self).nodes@,
                spec_parse_result(spec_clean(data_to_parse@))->Some_0,
                old(self).spec_id_count(),
                old(self).spec_base(),
            ),
            spec_clean(data_to_parse@).len() == 0 ==> r is Ok && *final(self) == *old(self),
            (spec_clean(data_to_parse@).len() > 0 && spec_clean(data_to_parse@)[0] != '{') ==> r
                == Err::<(), HsonError>(HsonError::MalformedInput(0)),
            r is Ok ==> {
                &&& final(self).wf()
                &&& final(self).buffer() == spec_clean(data_to_parse@)
                &&& final(self).node_count() <= spec_clean(data_to_parse@).len()
                &&& (forall|k: int|
                    0 <= k < final(self).node_count() ==> final(self).nodes@[k].id > old(
                        self,
                    ).spec_id_count())
                &&& final(self).spec_instances() == old(self).spec_instances()
                    + final(self).node_count()
                &&& final(self).spec_id_count() == old(self).spec_id_count()
                    + final(self).node_count()
                &&& (spec_clean(data_to_parse@).len() == 0 ==> final(self).node_count() == 0)
                &&& (spec_clean(data_to_parse@).len() > 0 ==> final(self).node_count() > 0
                    && final(self).nodes@[0].root && spec_clean(data_to_parse@)[0] == '{')
            },
    {
        let chars = str_to_chars(data_to_parse);
        let data = clean(chars.as_slice());
        proof {
            crate::chars::lemma_clean_len(data_to_parse@, 0, false, ' ');
        }
        let l = data.len();
        if l == 0 {
            proof {
                assert(spec_accepts(data@));
                assert(spec_parse_result(data@) == Some(Seq::<ScanNode>::empty()));
            }
            return Ok(());
        }
        if data[0] != '{' {
            proof {
                assert(!spec_accepts(data@));
            }
            return Err(HsonError::MalformedInput(0));
        }
        // scan into a scratch document; the document itself is touched
        // only once the whole text has been read and checked
        let mut tmp = Hson::new_slice(self.id_count, self.base);
        let mut previous: char = ' ';
        let mut skip = false;
        let mut controls = Controls { curly_brackets: 0, square_brackets: 0, double_quotes: 0 };
        let mut i: usize = 0;
        let ghost id0 = old(self).spec_id_count();
        let ghost base0 = old(self).spec_base();
        proof {
            assert(tmp.parse_inv(data@, 0));
            assert(spec_scan(data@, 0) == Some(
                Scan { nodes: Seq::<ScanNode>::empty(), dq: 0, previous: ' ', skip: false },
            ));
            assert(scan_matches(
                tmp.nodes@,
                spec_scan(data@, 0)->Some_0.nodes,
                id0,
                base0,
            ));
        }
        while i < l
            invariant
                l == data@.len(),
                data@ == spec_clean(data_to_parse@),
                0 < l,
                data@[0] == '{',
                i == 0 ==> !skip && controls.double_quotes == 0,
                0 <= i <= l,
                tmp.parse_inv(data@, i as int),
                tmp.nodes@.len() <= i,
                i >= 1 ==> tmp.nodes@.len() >= 1,
                tmp.buffer() == old(self).buffer(),
                tmp.cache_view() == old(self).cache_view(),
                tmp.spec_base() == old(self).spec_base(),
                tmp.spec_id_count() == old(self).spec_id_count() + tmp.nodes@.len(),
                tmp.spec_instances() == old(self).spec_instances() + tmp.nodes@.len(),
                old(self).spec_id_count() + l < u64::MAX,
                old(self).spec_instances() + l < u64::MAX,
                controls.curly_brackets <= i,
                controls.square_brackets <= i,
                id0 == old(self).spec_id_count(),
                base0 == old(self).spec_base(),
                old(self).spec_instances() == base0,
                spec_scan(data@, i as int) is Some,
                scan_matches(tmp.nodes@, spec_scan(data@, i as int)->Some_0.nodes, id0, base0),
                spec_scan(data@, i as int)->Some_0.dq == controls.double_quotes as int,
                spec_scan(data@, i as int)->Some_0.previous == previous,
                spec_scan(data@, i as int)->Some_0.skip == skip,
            decreases l - i,
        {
            let ghost st = spec_scan(data@, i as int)->Some_0;
            proof {
                assert(spec_scan(data@, i + 1) == spec_scan_step(data@, i as int, st));
            }
            let c = data[i];
            let in_string = controls.double_quotes > 0 && (c != '"' || previous == '\\');
            let string_just_closed = controls.double_quotes > 0 && c == '"' && previous
                != '\\';
            if !in_string && is_control(c) {
                controls_count(&mut controls, c, previous);
                if skip {
                    skip = false;
                }
            }
            if !in_string && !skip {
                let kind = if c == '}' || c == ']' || c == ',' || c == ':' {
                    Kind::Null
                } else {
                    match get_node_kind(data.as_slice(), i) {
                        Ok(k) => k,
                        Err(e) => {
                            proof {
                                assert(spec_scan_step(data@, i as int, st) is None);
                                lemma_scan_none_sticks(data@, i + 1, l as int);
                                assert(!spec_accepts(data@));
                            }
                            return Err(e);
                        },
                    }
                };
                let is_prim = match kind {
                    Kind::Bool => true,
                    Kind::Integer => true,
                    Kind::Float => true,
                    _ => false,
                };
                if is_prim {
                    skip = true;
                }
                let insert = match kind {
                    Kind::Null => false,
                    Kind::String => {
                        if string_just_closed {
                            false
                        } else {
                            !is_before_colons(data.as_slice(), i)
                        }
                    },
                    _ => true,
                };
                if insert {
                    let root = i == 0;
                    proof {
                        lemma_prev_opened_matches(
                            tmp.nodes@,
                            st.nodes,
                            id0,
                            base0,
                            tmp.nodes@.len() as int,
                            true,
                            Kind::Null,
                        );
                    }
                    let parent_pos: usize = if root {
                        0
                    } else {
                        match tmp.get_previous_opened_node(tmp.indexes.len(), true, Kind::Null) {
                            Ok(p) => p,
                            Err(e) => {
                                proof {
                                    assert(spec_scan_step(data@, i as int, st) is None);
                                    lemma_scan_none_sticks(data@, i + 1, l as int);
                                    assert(!spec_accepts(data@));
                                }
                                return Err(e);
                            },
                        }
                    };
                    proof {
                        if !root {
                            assert(parent_pos as int == spec_prev_opened_m(
                                st.nodes,
                                st.nodes.len() as int,
                                true,
                                Kind::Null,
                            ));
                            assert(scan_node_matches(
                                tmp.nodes@[parent_pos as int],
                                st.nodes[parent_pos as int],
                                id0,
                                base0,
                                parent_pos as int,
                            ));
                        }
                    }
                    let parent_is_array = if root {
                        false
                    } else {
                        let parent_id = tmp.indexes[parent_pos];
                        proof {
                            tmp.lemma_parse_ids_unique(data@, i as int);
                            tmp.lemma_pos_of_id(parent_pos as int);
                            assert(tmp.parse_node_at(parent_pos as int, data@, i as int));
                        }
                        tmp.node_is_array(parent_id)
                    };
                    proof {
                        if !root {
                            assert(parent_is_array == (st.nodes[parent_pos as int].kind
                                == Kind::Array));
                        }
                    }
                    let key: [usize; 2] = if root || parent_is_array {
                        [0, 0]
                    } else {
                        match get_node_key_position(data.as_slice(), i) {
                            Ok(k) => k,
                            Err(e) => {
                                proof {
                                    assert(spec_scan_step(data@, i as int, st) is None);
                                    lemma_scan_none_sticks(data@, i + 1, l as int);
                                    assert(!spec_accepts(data@));
                                }
                                return Err(e);
                            },
                        }
                    };
                    let value: [usize; 2] = if is_prim {
                        [i, l]
                    } else {
                        [i + 1, l]
                    };
                    let ghost pre_push = tmp;
                    tmp.push_parse_node(
                        root,
                        kind,
                        parent_pos,
                        key,
                        value,
                        Ghost(data@),
                        Ghost(i as int),
                    );
                    proof {
                        let cnt = st.nodes.len() as int;
                        let newpos = cnt;
                        let withparent = if root {
                            st.nodes
                        } else {
                            st.nodes.update(
                                parent_pos as int,
                                with_child(st.nodes[parent_pos as int], newpos),
                            )
                        };
                        let newnode = ScanNode {
                            root,
                            kind,
                            parentpos: if root {
                                -1
                            } else {
                                parent_pos as int
                            },
                            childs: Seq::empty(),
                            key0: key[0] as int,
                            key1: key[1] as int,
                            val0: value[0] as int,
                            val1: l as int,
                            opened: true,
                        };
                        let model1 = withparent.push(newnode);
                        assert(scan_matches(tmp.nodes@, model1, id0, base0)) by {
                            assert forall|k: int|
                                0 <= k < model1.len() implies scan_node_matches(
                                #[trigger] tmp.nodes@[k],
                                model1[k],
                                id0,
                                base0,
                                k,
                            ) by {
                                if k < cnt {
                                    assert(scan_node_matches(
                                        pre_push.nodes@[k],
                                        st.nodes[k],
                                        id0,
                                        base0,
                                        k,
                                    ));
                                    if !root && k == parent_pos as int {
                                        assert(model1[k] == with_child(st.nodes[k], newpos));
                                        assert(tmp.nodes@[k].childs@ == pre_push.nodes@[
                                            k
                                        ].childs@.push((id0 + cnt + 1) as u64));
                                        assert forall|j: int|
                                            0 <= j < model1[k].childs.len() implies tmp.nodes@[
                                            k].childs@[j] == id0 + #[trigger] model1[
                                            k].childs[j] + 1 by {
                                            if j < st.nodes[k].childs.len() {
                                                assert(tmp.nodes@[k].childs@[j]
                                                    == pre_push.nodes@[k].childs@[j]);
                                            }
                                        }
                                    } else {
                                        assert(tmp.nodes@[k] == pre_push.nodes@[k]);
                                        assert(model1[k] == st.nodes[k]);
                                    }
                                } else {
                                    assert(model1[k] == newnode);
                                    assert(tmp.nodes@[cnt].id == id0 + cnt + 1);
                                    if !root {
                                        assert(tmp.nodes@[cnt].parent == pre_push.nodes@[
                                            parent_pos as int
                                        ].id);
                                        assert(pre_push.nodes@[parent_pos as int].id == id0
                                            + parent_pos + 1);
                                    }
                                }
                            }
                        }
                        assert(crate::scan::spec_step_nodes1(data@, i as int, st) == Some(
                            model1,
                        ));
                    }
                }
                proof {
                    assert(crate::scan::spec_step_nodes1(data@, i as int, st) is Some);
                    assert(scan_matches(
                        tmp.nodes@,
                        crate::scan::spec_step_nodes1(data@, i as int, st)->Some_0,
                        id0,
                        base0,
                    ));
                }
                let close = if is_prim {
                    true
                } else if c == '}' || c == ']' {
                    true
                } else if c == '"' {
                    string_just_closed && !(i + 1 < l && data[i + 1] == ':')
                } else {
                    false
                };
                let ghost nodes1 = crate::scan::spec_step_nodes1(data@, i as int, st)->Some_0;
                if close {
                    proof {
                        lemma_prev_opened_matches(
                            tmp.nodes@,
                            nodes1,
                            id0,
                            base0,
                            tmp.nodes@.len() as int,
                            !is_prim,
                            if is_prim {
                                kind
                            } else if c == '}' {
                                Kind::Node
                            } else if c == ']' {
                                Kind::Array
                            } else {
                                Kind::String
                            },
                        );
                    }
                    if is_prim {
                        let vend = match extract_value(data.as_slice(), i) {
                            Ok(n) => n,
                            Err(e) => {
                                proof {
                                    assert(false);
                                }
                                return Err(e);
                            },
                        };
                        let cur = match tmp.get_previous_opened_node(tmp.nodes.len(), false, kind) {
                            Ok(p) => p,
                            Err(e) => {
                                proof {
                                    assert(spec_scan_step(data@, i as int, st) is None);
                                    lemma_scan_none_sticks(data@, i + 1, l as int);
                                    assert(!spec_accepts(data@));
                                }
                                return Err(e);
                            },
                        };
                        proof {
                            assert(tmp.parse_node_at(cur as int, data@, i + 1));
                        }
                        let ghost pre_close = tmp;
                        tmp.close_parse_node(cur, vend, Ghost(data@), Ghost(i + 1 as int));
                        proof {
                            let model2 = nodes1.update(
                                cur as int,
                                closed_node(nodes1[cur as int], vend as int),
                            );
                            assert(scan_matches(tmp.nodes@, model2, id0, base0)) by {
                                assert forall|k: int|
                                    0 <= k < model2.len() implies scan_node_matches(
                                    #[trigger] tmp.nodes@[k],
                                    model2[k],
                                    id0,
                                    base0,
                                    k,
                                ) by {
                                    assert(scan_node_matches(
                                        pre_close.nodes@[k],
                                        nodes1[k],
                                        id0,
                                        base0,
                                        k,
                                    ));
                                    if k != cur as int {
                                        assert(tmp.nodes@[k] == pre_close.nodes@[k]);
                                        assert(model2[k] == nodes1[k]);
                                    }
                                }
                            }
                        }
                    } else {
                        let closing_kind = if c == '}' {
                            Kind::Node
                        } else if c == ']' {
                            Kind::Array
                        } else {
                            Kind::String
                        };
                        let prev_pos = match tmp.get_previous_opened_node(
                            tmp.nodes.len(),
                            true,
                            closing_kind,
                        ) {
                            Ok(p) => p,
                            Err(e) => {
                                proof {
                                    assert(spec_scan_step(data@, i as int, st) is None);
                                    lemma_scan_none_sticks(data@, i + 1, l as int);
                                    assert(!spec_accepts(data@));
                                }
                                return Err(e);
                            },
                        };
                        proof {
                            assert(tmp.parse_node_at(prev_pos as int, data@, i as int));
                        }
                        let ghost pre_close = tmp;
                        tmp.close_parse_node(prev_pos, i, Ghost(data@), Ghost(i as int));
                        proof {
                            let model2 = nodes1.update(
                                prev_pos as int,
                                closed_node(nodes1[prev_pos as int], i as int),
                            );
                            assert(scan_matches(tmp.nodes@, model2, id0, base0)) by {
                                assert forall|k: int|
                                    0 <= k < model2.len() implies scan_node_matches(
                                    #[trigger] tmp.nodes@[k],
                                    model2[k],
                                    id0,
                                    base0,
                                    k,
                                ) by {
                                    assert(scan_node_matches(
                                        pre_close.nodes@[k],
                                        nodes1[k],
                                        id0,
                                        base0,
                                        k,
                                    ));
                                    if k != prev_pos as int {
                                        assert(tmp.nodes@[k] == pre_close.nodes@[k]);
                                        assert(model2[k] == nodes1[k]);
                                    }
                                }
                            }
                        }
                    }
                }
            }
            previous = c;
            proof {
                if tmp.parse_inv(data@, i as int) {
                    tmp.lemma_parse_inv_mono(data@, i as int, i + 1);
                }
                let stepo = spec_scan_step(data@, i as int, st);
                assert(stepo is Some);
                let st2 = stepo->Some_0;
                assert(st2.dq == controls.double_quotes as int);
                assert(st2.previous == previous);
                assert(st2.skip == skip);
                assert(scan_matches(tmp.nodes@, st2.nodes, id0, base0));
                assert(spec_scan(data@, i + 1) is Some);
            }
            i = i + 1;
        }
        let ghost pre_assign = tmp;
        tmp.data = data;
        proof {
            assert forall|k: int| 0 <= k < tmp.nodes@.len() implies tmp.parse_node_at(
                k,
                tmp.data@,
                l as int,
            ) by {
                assert(pre_assign.parse_node_at(k, tmp.data@, l as int));
                assert(tmp.parent_ok(k) == pre_assign.parent_ok(k));
                assert(tmp.childs_ok(k) == pre_assign.childs_ok(k));
            }
            assert(tmp.parse_inv(tmp.data@, l as int));
        }
        let ghost fin = spec_scan(data@, l as int)->Some_0;
        match tmp.validate() {
            Ok(_) => {
                proof {
                    assert forall|k: int|
                        0 <= k < fin.nodes.len() implies !(#[trigger] fin.nodes[k]).opened by {
                        assert(scan_node_matches(tmp.nodes@[k], fin.nodes[k], id0, base0, k));
                        assert(!tmp.nodes@[k].opened);
                    }
                    assert(spec_parse_result(data@) == Some(fin.nodes));
                    assert(spec_accepts(data@));
                }
            },
            Err(e) => {
                proof {
                    let f = tmp.spec_first_open(0);
                    assert(scan_node_matches(tmp.nodes@[f], fin.nodes[f], id0, base0, f));
                    assert(fin.nodes[f].opened);
                    assert(!(forall|k: int|
                        0 <= k < fin.nodes.len() ==> !(#[trigger] fin.nodes[k]).opened));
                    assert(!spec_accepts(data@));
                }
                return Err(e);
            },
        }
        proof {
            tmp.lemma_parse_ids_unique(tmp.data@, l as int);
            assert forall|k: int| 0 <= k < tmp.nodes@.len() implies tmp.wf_node_at(k) by {
                assert(tmp.parse_node_at(k, tmp.data@, l as int));
                assert(!tmp.nodes@[k].opened);
            }
            assert(tmp.wf_arena());
        }
        let ghost staged = tmp;
        tmp.rebuild_cache();
        proof {
            assert forall|k: int|
                0 <= k < tmp.node_count() implies tmp.nodes@[k].id > old(
                self).spec_id_count() by {
                assert(staged.parse_node_at(k, staged.data@, l as int));
                assert(tmp.nodes@[k] == staged.nodes@[k]);
            }
            assert(tmp.wf_arena() && tmp.wf_cache());
            assert(tmp.buffer() == spec_clean(data_to_parse@));
            assert(tmp.node_count() > 0);
            assert(tmp.wf_node_at(0));
            assert(tmp.nodes@[0].root);
            assert(tmp.spec_instances() == old(self).spec_instances() + tmp.node_count());
            assert(tmp.spec_id_count() == old(self).spec_id_count() + tmp.node_count());
            assert(spec_parse_result(spec_clean(data_to_parse@)) == Some(fin.nodes));
            assert(scan_matches(tmp.nodes@, fin.nodes, id0, base0));
        }
        *self = tmp;
        Ok(())
    }
}

} // verus!
