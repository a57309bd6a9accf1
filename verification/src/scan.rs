//! The scanner, stated: a step function over an abstract scan state says
//! exactly which texts are accepted and which arena a text builds. The
//! executable parser follows this function step for step, so its result is
//! determined by the text alone.

use vstd::prelude::*;
use crate::chars::spec_find_control;
use crate::chars::spec_is_bool_literal;
use crate::chars::spec_is_control;
use crate::chars::spec_is_float_literal;
use crate::chars::spec_is_int_literal;
use crate::node::Kind;
use crate::node::Node;
use crate::parse::spec_before_colons;
use crate::parse::spec_is_primitive;
use crate::parse::spec_key_position;
use crate::parse::spec_prev_opened;

verus! {

/// One node of the abstract arena: as the stored node, but with parent and
/// children named by arena position rather than identifier.
pub struct ScanNode {
    pub root: bool,
    pub kind: Kind,
    pub parentpos: int,
    pub childs: Seq<int>,
    pub key0: int,
    pub key1: int,
    pub val0: int,
    pub val1: int,
    pub opened: bool,
}

/// The scanner's whole state: the arena built so far, the double-quote
/// toggle, the previous character and the one-position skip flag.
pub struct Scan {
    pub nodes: Seq<ScanNode>,
    pub dq: int,
    pub previous: char,
    pub skip: bool,
}

/// A node with one more child.
pub open spec fn with_child(m: ScanNode, c: int) -> ScanNode {
    ScanNode {
        root: m.root,
        kind: m.kind,
        parentpos: m.parentpos,
        childs: m.childs.push(c),
        key0: m.key0,
        key1: m.key1,
        val0: m.val0,
        val1: m.val1,
        opened: m.opened,
    }
}

/// A node closed with its value upper bound rewritten.
pub open spec fn closed_node(m: ScanNode, v1: int) -> ScanNode {
    ScanNode {
        root: m.root,
        kind: m.kind,
        parentpos: m.parentpos,
        childs: m.childs,
        key0: m.key0,
        key1: m.key1,
        val0: m.val0,
        val1: v1,
        opened: false,
    }
}

/// The most recent still-open abstract node below `from` that qualifies,
/// or a negative number.
pub open spec fn spec_prev_opened_m(
    nodes: Seq<ScanNode>,
    from: int,
    skip_primitives: bool,
    kind: Kind,
) -> int
    decreases from,
{
    if from <= 0 || from > nodes.len() {
        -1
    } else {
        let n = nodes[from - 1];
        if n.opened && !(skip_primitives && spec_is_primitive(n.kind)) && (kind == Kind::Null
            || n.kind == kind) {
            from - 1
        } else {
            spec_prev_opened_m(nodes, from - 1, skip_primitives, kind)
        }
    }
}

/// The construct kind the character at position `i` opens, nothing for a
/// character that opens none, or a rejection of the text.
pub open spec fn spec_step_kind(s: Seq<char>, i: int) -> Option<Kind> {
    let c = s[i];
    if c == '}' || c == ']' || c == ',' || c == ':' {
        Some(Kind::Null)
    } else if c == '{' {
        Some(Kind::Node)
    } else if c == '[' {
        Some(Kind::Array)
    } else if c == '"' {
        Some(Kind::String)
    } else {
        let n = spec_find_control(s, i + 1);
        if n == s.len() {
            None
        } else {
            let lit = s.subrange(i, n);
            if spec_is_int_literal(lit) {
                Some(Kind::Integer)
            } else if spec_is_float_literal(lit) {
                Some(Kind::Float)
            } else if spec_is_bool_literal(lit) {
                Some(Kind::Bool)
            } else {
                None
            }
        }
    }
}

/// The arena after the insertion half of one scanner step: unchanged when
/// the position opens nothing, grown by one node otherwise, or a rejection
/// of the text.
pub open spec fn spec_step_nodes1(s: Seq<char>, i: int, st: Scan) -> Option<Seq<ScanNode>> {
    let c = s[i];
    let in_string = st.dq > 0 && (c != '"' || st.previous == '\\');
    let sjc = st.dq > 0 && c == '"' && st.previous != '\\';
    let skip1 = if !in_string && spec_is_control(c) {
        false
    } else {
        st.skip
    };
    if in_string || skip1 {
        Some(st.nodes)
    } else {
        let kindo = spec_step_kind(s, i);
        if kindo is None {
            None
        } else {
            let kind = kindo->Some_0;
            let prim = spec_is_primitive(kind);
            let insert = if kind == Kind::Null {
                false
            } else if kind == Kind::String {
                !sjc && !spec_before_colons(s, i)
            } else {
                true
            };
            if !insert {
                Some(st.nodes)
            } else {
                let root = i == 0;
                let pp = if root {
                    -1
                } else {
                    spec_prev_opened_m(st.nodes, st.nodes.len() as int, true, Kind::Null)
                };
                if !root && pp < 0 {
                    None
                } else {
                    let parr = !root && st.nodes[pp].kind == Kind::Array;
                    let keyo: Option<(int, int)> = if root || parr {
                        Some((0int, 0int))
                    } else {
                        spec_key_position(s, i)
                    };
                    if keyo is None {
                        None
                    } else {
                        let k0 = keyo->Some_0.0;
                        let k1 = keyo->Some_0.1;
                        let v0 = if prim {
                            i
                        } else {
                            i + 1
                        };
                        let newpos = st.nodes.len() as int;
                        let withparent = if root {
                            st.nodes
                        } else {
                            st.nodes.update(pp, with_child(st.nodes[pp], newpos))
                        };
                        Some(
                            withparent.push(
                                ScanNode {
                                    root,
                                    kind,
                                    parentpos: if root {
                                        -1
                                    } else {
                                        pp
                                    },
                                    childs: Seq::empty(),
                                    key0: k0,
                                    key1: k1,
                                    val0: v0,
                                    val1: s.len() as int,
                                    opened: true,
                                },
                            ),
                        )
                    }
                }
            }
        }
    }
}

/// What the scanner does with the character at position `i`, or nothing
/// when the text is rejected there: the per-character decision of the
/// parser, over the abstract state.
pub open spec fn spec_scan_step(s: Seq<char>, i: int, st: Scan) -> Option<Scan> {
    let c = s[i];
    let in_string = st.dq > 0 && (c != '"' || st.previous == '\\');
    let sjc = st.dq > 0 && c == '"' && st.previous != '\\';
    let dq1: int = if !in_string && spec_is_control(c) {
        if c == '"' {
            if st.dq > 0 && st.previous != '\\' {
                0
            } else {
                1
            }
        } else {
            st.dq
        }
    } else {
        st.dq
    };
    let skip1 = if !in_string && spec_is_control(c) {
        false
    } else {
        st.skip
    };
    if in_string || skip1 {
        Some(Scan { nodes: st.nodes, dq: dq1, previous: c, skip: skip1 })
    } else {
        let kindo = spec_step_kind(s, i);
        if kindo is None {
            None
        } else {
            let kind = kindo->Some_0;
            let prim = spec_is_primitive(kind);
            let skip2 = if prim {
                true
            } else {
                skip1
            };
            let step1 = spec_step_nodes1(s, i, st);
            if step1 is None {
                None
            } else {
                let nodes1 = step1->Some_0;
                let close = if prim {
                    true
                } else if c == '}' || c == ']' {
                    true
                } else if c == '"' {
                    sjc && !(i + 1 < s.len() && s[i + 1] == ':')
                } else {
                    false
                };
                if !close {
                    Some(Scan { nodes: nodes1, dq: dq1, previous: c, skip: skip2 })
                } else {
                    if prim {
                        let vend = spec_find_control(s, i + 1);
                        let t = spec_prev_opened_m(nodes1, nodes1.len() as int, false, kind);
                        if t < 0 {
                            None
                        } else {
                            Some(
                                Scan {
                                    nodes: nodes1.update(t, closed_node(nodes1[t], vend)),
                                    dq: dq1,
                                    previous: c,
                                    skip: skip2,
                                },
                            )
                        }
                    } else {
                        let ck = if c == '}' {
                            Kind::Node
                        } else if c == ']' {
                            Kind::Array
                        } else {
                            Kind::String
                        };
                        let t = spec_prev_opened_m(nodes1, nodes1.len() as int, true, ck);
                        if t < 0 {
                            None
                        } else {
                            Some(
                                Scan {
                                    nodes: nodes1.update(t, closed_node(nodes1[t], i)),
                                    dq: dq1,
                                    previous: c,
                                    skip: skip2,
                                },
                            )
                        }
                    }
                }
            }
        }
    }
}

/// The scanner's state after reading the first `i` characters, or nothing
/// when it rejected one of them.
pub open spec fn spec_scan(s: Seq<char>, i: int) -> Option<Scan>
    decreases i,
{
    if i <= 0 {
        Some(Scan { nodes: Seq::empty(), dq: 0, previous: ' ', skip: false })
    } else {
        let prev = spec_scan(s, i - 1);
        if prev is None {
            None
        } else {
            spec_scan_step(s, i - 1, prev->Some_0)
        }
    }
}

/// The arena a cleaned text builds: empty text builds the empty document;
/// other texts must open with a curly bracket, survive every scanner step,
/// and leave no node open.
pub open spec fn spec_parse_result(s: Seq<char>) -> Option<Seq<ScanNode>> {
    if s.len() == 0 {
        Some(Seq::empty())
    } else if s[0] != '{' {
        None
    } else {
        let fin = spec_scan(s, s.len() as int);
        if fin is None {
            None
        } else if forall|k: int|
            0 <= k < fin->Some_0.nodes.len() ==> !(#[trigger] fin->Some_0.nodes[k]).opened {
            Some(fin->Some_0.nodes)
        } else {
            None
        }
    }
}

/// Whether a cleaned text is a well-formed document.
pub open spec fn spec_accepts(s: Seq<char>) -> bool {
    spec_parse_result(s) is Some
}

/// The stored node at position `k` realizes the abstract node: same flags,
/// kind and ranges, with identifier and instance drawn from the counters,
/// and with parent and children named by identifier rather than position.
pub open spec fn scan_node_matches(n: Node, m: ScanNode, id0: u64, base: u64, k: int) -> bool {
    &&& n.root == m.root
    &&& n.kind == m.kind
    &&& n.id == id0 + k + 1
    &&& n.instance == base + k + 1
    &&& n.parent == (if m.parentpos < 0 {
        0
    } else {
        id0 + m.parentpos + 1
    })
    &&& n.childs@.len() == m.childs.len()
    &&& (forall|j: int| 0 <= j < m.childs.len() ==> n.childs@[j] == id0 + #[trigger] m.childs[j] + 1)
    &&& n.key[0] == m.key0
    &&& n.key[1] == m.key1
    &&& n.value[0] == m.val0
    &&& n.value[1] == m.val1
    &&& n.opened == m.opened
}

/// The stored arena realizes the abstract one, node for node.
pub open spec fn scan_matches(nodes: Seq<Node>, model: Seq<ScanNode>, id0: u64, base: u64) -> bool {
    &&& nodes.len() == model.len()
    &&& forall|k: int|
        0 <= k < model.len() ==> scan_node_matches(#[trigger] nodes[k], model[k], id0, base, k)
}

/// Under the realization, the stored and abstract open-node walks agree.
pub proof fn lemma_prev_opened_matches(
    nodes: Seq<Node>,
    model: Seq<ScanNode>,
    id0: u64,
    base: u64,
    from: int,
    skip_primitives: bool,
    kind: Kind,
)
    requires
        scan_matches(nodes, model, id0, base),
        from <= nodes.len(),
    ensures
        spec_prev_opened(nodes, from, skip_primitives, kind) == spec_prev_opened_m(
            model,
            from,
            skip_primitives,
            kind,
        ),
    decreases from,
{
    if 0 < from <= nodes.len() {
        assert(scan_node_matches(nodes[from - 1], model[from - 1], id0, base, from - 1));
        lemma_prev_opened_matches(nodes, model, id0, base, from - 1, skip_primitives, kind);
    }
}

/// A rejection never recovers: once a step refuses, every later state is a
/// refusal too.
pub proof fn lemma_scan_none_sticks(s: Seq<char>, i: int, j: int)
    requires
        0 <= i <= j,
        spec_scan(s, i) is None,
    ensures
        spec_scan(s, j) is None,
    decreases j - i,
{
    if j > i {
        lemma_scan_none_sticks(s, i, j - 1);
    }
}

} // verus!
