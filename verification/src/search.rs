//! The enhanced search language over path queries: an expression is split
//! into parts; a part is a direct-child chain (`>`), an alternation (`|`)
//! or a plain key, and any component may carry an equality filter on the
//! node's value text (`='...'`, with alternation inside the literal).

use vstd::prelude::*;
use crate::chars::chars_eq;
use crate::chars::spec_is_ws;
use crate::chars::is_ws;
use crate::doc::Hson;
use crate::doc::HsonError;
use crate::query::Query;

verus! {

/// The cleaned form of a search expression from position `i` on: text in
/// single-quoted literals is kept; elsewhere runs of whitespace collapse
/// to one space and whitespace next to `>`, `=` and `|` is dropped.
pub open spec fn spec_clean_query(
    s: Seq<char>,
    i: int,
    in_string: bool,
    previous: char,
    out: Seq<char>,
) -> Seq<char>
    decreases s.len() - i,
{
    if i < 0 || i >= s.len() {
        out
    } else {
        let c = s[i];
        let ins = if c == '\'' {
            if !in_string {
                true
            } else if previous != '\\' {
                false
            } else {
                in_string
            }
        } else {
            in_string
        };
        let out2 = if ins {
            out.push(c)
        } else if c == '>' || c == '=' || c == '|' {
            (if out.len() > 0 && out.last() == ' ' {
                out.drop_last().push(c)
            } else {
                out.push(c)
            })
        } else if !spec_is_ws(c) {
            out.push(c)
        } else {
            (if previous == ' ' || previous == '\t' || previous == '\r' || previous == '\n'
                || previous == '>' || previous == '=' || previous == '|' {
                out
            } else {
                out.push(' ')
            })
        };
        spec_clean_query(s, i + 1, ins, c, out2)
    }
}

/// The parts of a cleaned expression: split on spaces standing outside
/// single-quoted literals; the last part is kept only when non-empty.
pub open spec fn spec_format_parts(
    s: Seq<char>,
    i: int,
    in_string: bool,
    previous: char,
    item: Seq<char>,
    acc: Seq<Seq<char>>,
) -> Seq<Seq<char>>
    decreases s.len() - i,
{
    if i < 0 || i >= s.len() {
        if item.len() > 0 {
            acc.push(item)
        } else {
            acc
        }
    } else {
        let c = s[i];
        let ins = if c == '\'' {
            if !in_string {
                true
            } else if previous != '\\' {
                false
            } else {
                in_string
            }
        } else {
            in_string
        };
        if c == ' ' && !ins {
            spec_format_parts(s, i + 1, ins, c, Seq::empty(), acc.push(item))
        } else {
            spec_format_parts(s, i + 1, ins, c, item.push(c), acc)
        }
    }
}

/// What a search expression tokenizes to.
pub open spec fn spec_format_query(q: Seq<char>) -> Seq<Seq<char>> {
    spec_format_parts(
        spec_clean_query(q, 0, false, ' ', Seq::empty()),
        0,
        false,
        ' ',
        Seq::empty(),
        Seq::empty(),
    )
}

impl Hson {
    /// Cleans a search expression.
    fn clean_query(&self, query: &Vec<char>) -> (r: Vec<char>)
        ensures
            r@ == spec_clean_query(query@, 0, false, ' ', Seq::empty()),
    {
        let mut out: Vec<char> = Vec::new();
        let mut in_string = false;
        let mut previous = ' ';
        let mut i: usize = 0;
        proof {
            assert(out@ =~= Seq::<char>::empty());
        }
        while i < query.len()
            invariant
                0 <= i <= query@.len(),
                spec_clean_query(query@, 0, false, ' ', Seq::empty()) == spec_clean_query(
                    query@,
                    i as int,
                    in_string,
                    previous,
                    out@,
                ),
            decreases query@.len() - i,
        {
            let c = query[i];
            if c == '\'' {
                if !in_string {
                    in_string = true;
                } else if previous != '\\' {
                    in_string = false;
                }
            }
            if in_string {
                out.push(c);
            } else if c == '>' || c == '=' || c == '|' {
                if out.len() > 0 && out[out.len() - 1] == ' ' {
                    let at = out.len() - 1;
                    let _ = out.remove(at);
                    out.push(c);
                } else {
                    out.push(c);
                }
            } else if !is_ws(c) {
                out.push(c);
            } else {
                if previous == ' ' || previous == '\t' || previous == '\r' || previous == '\n'
                    || previous == '>' || previous == '=' || previous == '|' {
                    // collapse
                } else {
                    out.push(' ');
                }
            }
            previous = c;
            i = i + 1;
        }
        out
    }

    /// Splits a cleaned expression into parts.
    fn format_query(&self, query: &Vec<char>) -> (r: Vec<Vec<char>>)
        ensures
            ({
                let parts = spec_format_query(query@);
                &&& r@.len() == parts.len()
                &&& forall|j: int| 0 <= j < parts.len() ==> r@[j]@ == parts[j]
            }),
    {
        let cleaned = self.clean_query(query);
        let mut result: Vec<Vec<char>> = Vec::new();
        let ghost mut acc: Seq<Seq<char>> = Seq::empty();
        let mut in_string = false;
        let mut previous = ' ';
        let mut item: Vec<char> = Vec::new();
        let mut i: usize = 0;
        proof {
            assert(item@ =~= Seq::<char>::empty());
        }
        while i < cleaned.len()
            invariant
                0 <= i <= cleaned@.len(),
                result@.len() == acc.len(),
                forall|j: int| 0 <= j < acc.len() ==> result@[j]@ == #[trigger] acc[j],
                spec_format_query(query@) == spec_format_parts(
                    cleaned@,
                    i as int,
                    in_string,
                    previous,
                    item@,
                    acc,
                ),
                cleaned@ == spec_clean_query(query@, 0, false, ' ', Seq::empty()),
            decreases cleaned@.len() - i,
        {
            let c = cleaned[i];
            if c == '\'' {
                if !in_string {
                    in_string = true;
                } else if previous != '\\' {
                    in_string = false;
                }
            }
            if c == ' ' && !in_string {
                let ghost olditem = item@;
                result.push(item);
                item = Vec::new();
                proof {
                    acc = acc.push(olditem);
                    assert(item@ =~= Seq::<char>::empty());
                }
            } else {
                item.push(c);
            }
            previous = c;
            i = i + 1;
        }
        if item.len() > 0 {
            result.push(item);
            proof {
                acc = acc.push(item@);
            }
        }
        result
    }
}

/// The ids of the current result set that one plain component keeps: each
/// element's recursive matches under it, in order.
pub open spec fn spec_desc_step(h: Hson, cur: Seq<u64>, key: Seq<char>, eq: Seq<char>) -> Seq<
    u64,
>
    decreases cur.len(),
{
    if cur.len() == 0 {
        Seq::empty()
    } else {
        spec_desc_step(h, cur.drop_last(), key, eq) + spec_eq_filter(
            h,
            h.spec_query_on(cur.last(), key, true),
            eq,
        )
    }
}

/// The same step with direct children only.
pub open spec fn spec_child_step(
    h: Hson,
    cur: Seq<u64>,
    key: Seq<char>,
    eq: Seq<char>,
    recursive: bool,
) -> Seq<u64>
    decreases cur.len(),
{
    if cur.len() == 0 {
        Seq::empty()
    } else {
        spec_child_step(h, cur.drop_last(), key, eq, recursive) + spec_eq_filter(
            h,
            h.spec_query_on(cur.last(), key, recursive),
            eq,
        )
    }
}

/// The equality filter: with an empty filter text everything stays; with
/// `='lit'` only nodes whose value text equals one of the `|`-separated,
/// trimmed literals stay.
pub open spec fn spec_eq_filter(h: Hson, ids: Seq<u64>, eq: Seq<char>) -> Seq<u64>
    decreases ids.len(),
{
    if eq.len() == 0 {
        ids
    } else if ids.len() == 0 {
        Seq::empty()
    } else {
        spec_eq_filter(h, ids.drop_last(), eq) + (if spec_eq_matches(h, ids.last(), eq) {
            seq![ids.last()]
        } else {
            Seq::empty()
        })
    }
}

/// Whether a node's value text equals one of the trimmed literal
/// alternatives of an equality filter.
pub open spec fn spec_eq_matches(h: Hson, id: u64, eq: Seq<char>) -> bool {
    &&& h.pos_of(id) < h.node_count()
    &&& exists|j: int|
        0 <= j < spec_alternatives(eq).len() && h.value_chars_at(h.pos_of(id)) == spec_trim(
            #[trigger] spec_alternatives(eq)[j],
        )
}

/// The alternatives of an equality literal: the text between its outer
/// quotes, split on `|`.
pub open spec fn spec_alternatives(eq: Seq<char>) -> Seq<Seq<char>> {
    if eq.len() >= 2 {
        spec_split_char(eq.subrange(1, eq.len() - 1), '|')
    } else {
        Seq::empty()
    }
}

/// Splitting on one character.
pub open spec fn spec_split_char(s: Seq<char>, ch: char) -> Seq<Seq<char>>
    decreases s.len(),
{
    let sp = crate::chars::spec_find_from(s, 0, ch, ch);
    if !(0 <= sp < s.len()) {
        seq![s]
    } else {
        seq![s.subrange(0, sp)] + spec_split_char(s.subrange(sp + 1, s.len() as int), ch)
    }
}

/// Splits a character list on one character.
pub fn split_char(v: &Vec<char>, ch: char) -> (r: Vec<Vec<char>>)
    ensures
        ({
            let parts = spec_split_char(v@, ch);
            &&& r@.len() == parts.len()
            &&& r@.len() >= 1
            &&& forall|j: int| 0 <= j < parts.len() ==> r@[j]@ == parts[j]
        }),
{
    let len = v.len();
    let mut parts: Vec<Vec<char>> = Vec::new();
    let ghost mut acc: Seq<Seq<char>> = Seq::empty();
    let mut start: usize = 0;
    let mut i: usize = 0;
    proof {
        assert(v@.subrange(0, len as int) =~= v@);
    }
    while i < len
        invariant
            len == v@.len(),
            0 <= start <= i <= len,
            parts@.len() == acc.len(),
            forall|j: int| 0 <= j < acc.len() ==> parts@[j]@ == #[trigger] acc[j],
            spec_split_char(v@, ch) == acc + spec_split_char(
                v@.subrange(start as int, len as int),
                ch,
            ),
            forall|j: int| start <= j < i ==> v@[j] != ch,
        decreases len - i,
    {
        if v[i] == ch {
            let ghost suffix = v@.subrange(start as int, len as int);
            let part = crate::query::copy_slice(v.as_slice(), start, i);
            parts.push(part);
            proof {
                assert forall|j: int| 0 <= j < i - start implies suffix[j] != ch by {
                    assert(suffix[j] == v@[start + j]);
                }
                crate::chars::lemma_find_skip(suffix, i - start, ch, ch);
                assert(suffix[i - start] == ch);
                assert(part@ =~= suffix.subrange(0, i - start));
                assert(v@.subrange(i + 1, len as int) =~= suffix.subrange(
                    i - start + 1,
                    suffix.len() as int,
                ));
                acc = acc.push(part@);
            }
            start = i + 1;
        }
        i = i + 1;
    }
    let ghost suffix = v@.subrange(start as int, len as int);
    let part = crate::query::copy_slice(v.as_slice(), start, len);
    parts.push(part);
    proof {
        assert forall|j: int| 0 <= j < suffix.len() implies suffix[j] != ch by {
            assert(suffix[j] == v@[start + j]);
        }
        crate::chars::lemma_find_skip(suffix, suffix.len() as int, ch, ch);
        assert(part@ =~= suffix);
        acc = acc.push(part@);
    }
    parts
}

/// A text with leading and trailing whitespace dropped.
pub open spec fn spec_trim(s: Seq<char>) -> Seq<char> {
    spec_trim_front(spec_trim_back(s))
}

/// A text with leading whitespace dropped.
pub open spec fn spec_trim_front(s: Seq<char>) -> Seq<char>
    decreases s.len(),
{
    if s.len() > 0 && spec_is_ws(s[0]) {
        spec_trim_front(s.subrange(1, s.len() as int))
    } else {
        s
    }
}

/// A text with trailing whitespace dropped.
pub open spec fn spec_trim_back(s: Seq<char>) -> Seq<char>
    decreases s.len(),
{
    if s.len() > 0 && spec_is_ws(s.last()) {
        spec_trim_back(s.drop_last())
    } else {
        s
    }
}


/// Drops leading and trailing whitespace.
pub fn trim_chars(v: &Vec<char>) -> (r: Vec<char>)
    ensures
        r@ == spec_trim(v@),
{
    let len = v.len();
    proof {
        assert(v@.subrange(0, len as int) =~= v@);
    }
    let mut b: usize = len;
    while b > 0 && is_ws(v[b - 1])
        invariant
            0 <= b <= len,
            len == v@.len(),
            spec_trim_back(v@) == spec_trim_back(v@.subrange(0, b as int)),
        decreases b,
    {
        proof {
            assert(v@.subrange(0, b as int).drop_last() =~= v@.subrange(0, b - 1));
            assert(v@.subrange(0, b as int).last() == v@[b - 1]);
        }
        b = b - 1;
    }
    proof {
        if b > 0 {
            assert(v@.subrange(0, b as int).last() == v@[b - 1]);
        }
        assert(spec_trim_back(v@.subrange(0, b as int)) == v@.subrange(0, b as int));
    }
    let mut a: usize = 0;
    while a < b && is_ws(v[a])
        invariant
            0 <= a <= b <= len,
            len == v@.len(),
            spec_trim_back(v@) == v@.subrange(0, b as int),
            spec_trim_front(v@.subrange(0, b as int)) == spec_trim_front(
                v@.subrange(a as int, b as int),
            ),
        decreases b - a,
    {
        proof {
            assert(v@.subrange(a as int, b as int)[0] == v@[a as int]);
            assert(v@.subrange(a as int, b as int).subrange(
                1,
                v@.subrange(a as int, b as int).len() as int,
            ) =~= v@.subrange(a + 1, b as int));
        }
        a = a + 1;
    }
    proof {
        if a < b {
            assert(v@.subrange(a as int, b as int)[0] == v@[a as int]);
        }
        assert(spec_trim_front(v@.subrange(a as int, b as int)) == v@.subrange(
            a as int,
            b as int,
        ));
    }
    crate::query::copy_slice(v.as_slice(), a, b)
}

/// The key half of a component: the text before its first `=`, or the
/// whole component.
pub open spec fn spec_comp_key(c: Seq<char>) -> Seq<char> {
    let e = crate::chars::spec_find_from(c, 0, '=', '=');
    if 0 <= e < c.len() {
        c.subrange(0, e)
    } else {
        c
    }
}

/// The filter half of a component: the text after its first `=`, or
/// nothing.
pub open spec fn spec_comp_eq(c: Seq<char>) -> Seq<char> {
    let e = crate::chars::spec_find_from(c, 0, '=', '=');
    if 0 <= e < c.len() {
        c.subrange(e + 1, c.len() as int)
    } else {
        Seq::empty()
    }
}

/// What one search part contributes, from the current result set.
pub open spec fn spec_part_eval(h: Hson, part: Seq<char>, cur: Seq<u64>) -> Seq<u64> {
    let gt = crate::chars::spec_find_from(part, 0, '>', '>');
    let bar = crate::chars::spec_find_from(part, 0, '|', '|');
    if gt < part.len() {
        let elems = spec_split_char(part, '>');
        if elems.len() > 0 && elems[0].len() == 0 {
            spec_chain_eval(h, elems, 1, cur, false)
        } else {
            spec_chain_eval(h, elems, 0, cur, true)
        }
    } else if bar < part.len() {
        spec_multi_eval(h, spec_split_char(part, '|'), 0, cur)
    } else {
        spec_desc_step(h, cur, spec_comp_key(part), spec_comp_eq(part))
    }
}

/// A direct-child chain, hop by hop: the first hop may be recursive, all
/// later hops take direct children only.
pub open spec fn spec_chain_eval(
    h: Hson,
    elems: Seq<Seq<char>>,
    ei: int,
    cur: Seq<u64>,
    first: bool,
) -> Seq<u64>
    decreases elems.len() - ei,
{
    if ei < 0 || ei >= elems.len() {
        cur
    } else {
        spec_chain_eval(
            h,
            elems,
            ei + 1,
            spec_child_step(h, cur, spec_comp_key(elems[ei]), spec_comp_eq(elems[ei]), first),
            false,
        )
    }
}

/// An alternation: the union of the recursive lookups of each
/// alternative, alternative by alternative.
pub open spec fn spec_multi_eval(h: Hson, alts: Seq<Seq<char>>, ai: int, cur: Seq<u64>) -> Seq<
    u64,
>
    decreases alts.len() - ai,
{
    if ai < 0 || ai >= alts.len() {
        Seq::empty()
    } else {
        spec_desc_step(h, cur, spec_comp_key(alts[ai]), spec_comp_eq(alts[ai]))
            + spec_multi_eval(h, alts, ai + 1, cur)
    }
}

/// The whole pipeline over the parts of an expression.
pub open spec fn spec_pipeline(h: Hson, parts: Seq<Seq<char>>, pi: int, cur: Seq<u64>) -> Seq<
    u64,
>
    decreases parts.len() - pi,
{
    if pi < 0 || pi >= parts.len() {
        cur
    } else {
        spec_pipeline(h, parts, pi + 1, spec_part_eval(h, parts[pi], cur))
    }
}

/// The result list with later duplicates dropped, first occurrences kept
/// in order.
pub open spec fn spec_unique(s: Seq<u64>) -> Seq<u64>
    decreases s.len(),
{
    if s.len() == 0 {
        Seq::empty()
    } else {
        let rest = spec_unique(s.drop_last());
        if s.drop_last().contains(s.last()) {
            rest
        } else {
            rest.push(s.last())
        }
    }
}

/// What a search returns: the pipeline run from one starting node, then
/// deduplicated.
pub open spec fn spec_search_from(h: Hson, q: Seq<char>, start: u64) -> Seq<u64> {
    spec_unique(spec_pipeline(h, spec_format_query(q), 0, seq![start]))
}

/// The search surface.
pub trait Search {
    /// What a document must satisfy before it can be searched.
    spec fn search_wf(&self) -> bool;

    /// Runs a search expression over the whole tree.
    fn search(&self, query: &str) -> (r: Result<Vec<u64>, HsonError>)
        requires
            self.search_wf(),
    ;

    /// Runs a search expression under one node.
    fn search_in(&self, node_id: u64, query: &str) -> (r: Result<Vec<u64>, HsonError>)
        requires
            self.search_wf(),
    ;
}

impl Hson {
    /// Decides whether a list holds an identifier.
    fn contains_id(v: &Vec<u64>, x: u64) -> (r: bool)
        ensures
            r == v@.contains(x),
    {
        let mut i: usize = 0;
        while i < v.len()
            invariant
                0 <= i <= v@.len(),
                forall|j: int| 0 <= j < i ==> v@[j] != x,
            decreases v@.len() - i,
        {
            if v[i] == x {
                return true;
            }
            i = i + 1;
        }
        proof {
            if v@.contains(x) {
                let w = choose|w: int| 0 <= w < v@.len() && v@[w] == x;
            }
        }
        false
    }

    /// Deduplicates a result list, keeping first occurrences in order.
    fn unique(&self, v: &Vec<u64>) -> (r: Vec<u64>)
        ensures
            r@ == spec_unique(v@),
    {
        let mut results: Vec<u64> = Vec::new();
        let mut i: usize = 0;
        while i < v.len()
            invariant
                0 <= i <= v@.len(),
                results@ == spec_unique(v@.subrange(0, i as int)),
                forall|y: u64|
                    results@.contains(y) == v@.subrange(0, i as int).contains(y),
            decreases v@.len() - i,
        {
            let x = v[i];
            let ghost pre = v@.subrange(0, i as int);
            let ghost cur = v@.subrange(0, i + 1 as int);
            let seen = Self::contains_id(&results, x);
            proof {
                assert(cur.drop_last() =~= pre);
                assert(cur.last() == x);
                if pre.contains(x) {
                    let w = choose|w: int| 0 <= w < pre.len() && pre[w] == x;
                    assert(cur[w] == x);
                }
            }
            let ghost oldres = results@;
            if !seen {
                results.push(x);
            }
            proof {
                assert forall|y: u64| results@.contains(y) == cur.contains(y) by {
                    if results@.contains(y) {
                        let w = choose|w: int|
                            0 <= w < results@.len() && results@[w] == y;
                        if w < oldres.len() {
                            assert(oldres[w] == y);
                            assert(oldres.contains(y));
                            assert(pre.contains(y));
                            let w2 = choose|w2: int| 0 <= w2 < pre.len() && pre[w2] == y;
                            assert(cur[w2] == y);
                        } else {
                            assert(y == x);
                            assert(cur[cur.len() - 1] == y);
                        }
                    }
                    if cur.contains(y) {
                        let w = choose|w: int| 0 <= w < cur.len() && cur[w] == y;
                        if w < cur.len() - 1 {
                            assert(pre[w] == y);
                            assert(pre.contains(y));
                            assert(oldres.contains(y));
                            let w2 = choose|w2: int|
                                0 <= w2 < oldres.len() && oldres[w2] == y;
                            assert(results@[w2] == y);
                        } else {
                            assert(y == x);
                            if seen {
                                assert(oldres.contains(x));
                                let w2 = choose|w2: int|
                                    0 <= w2 < oldres.len() && oldres[w2] == x;
                                assert(results@[w2] == y);
                            } else {
                                assert(results@[results@.len() - 1] == y);
                            }
                        }
                    }
                }
            }
            i = i + 1;
        }
        proof {
            assert(v@.subrange(0, v@.len() as int) =~= v@);
        }
        results
    }

    /// Applies a component's equality filter to a result list: with no
    /// filter everything stays; otherwise only nodes whose value text is
    /// one of the trimmed literal alternatives.
    fn filter_equality_childs(&self, eq: &Vec<char>, existing: &Vec<u64>) -> (r: Vec<u64>)
        requires
            self.wf(),
        ensures
            r@ == spec_eq_filter(*self, existing@, eq@),
    {
        if eq.len() == 0 {
            return crate::doc::clone_ids(existing);
        }
        let mut alternatives: Vec<Vec<char>> = Vec::new();
        if eq.len() >= 2 {
            let interior = crate::query::copy_slice(eq.as_slice(), 1, eq.len() - 1);
            alternatives = split_char(&interior, '|');
            proof {
                assert(interior@ == eq@.subrange(1, eq@.len() - 1));
            }
        }
        let ghost alts = spec_alternatives(eq@);
        proof {
            if eq@.len() < 2 {
                assert(alternatives@.len() == 0);
                assert(alts.len() == 0);
            }
        }
        let mut out: Vec<u64> = Vec::new();
        let mut i: usize = 0;
        while i < existing.len()
            invariant
                self.wf(),
                eq@.len() > 0,
                0 <= i <= existing@.len(),
                alternatives@.len() == alts.len(),
                forall|j: int| 0 <= j < alts.len() ==> alternatives@[j]@ == #[trigger] alts[j],
                alts == spec_alternatives(eq@),
                out@ == spec_eq_filter(*self, existing@.subrange(0, i as int), eq@),
            decreases existing@.len() - i,
        {
            let id = existing[i];
            let ghost pre = existing@.subrange(0, i as int);
            let ghost cur = existing@.subrange(0, i + 1 as int);
            let mut matched = false;
            let value: Vec<char> = match self.nodes.position_of(id) {
                Some(pn) => {
                    proof {
                        assert(self.wf_node_at(pn as int));
                    }
                    let nd = self.nodes.at(pn);
                    self.copy_range(nd.value[0], nd.value[1])
                },
                None => Vec::new(),
            };
            let ghost pid = self.pos_of(id);
            let mut a: usize = 0;
            while a < alternatives.len()
                invariant
                    self.wf(),
                    0 <= a <= alternatives@.len(),
                    alternatives@.len() == alts.len(),
                    forall|j: int|
                        0 <= j < alts.len() ==> alternatives@[j]@ == #[trigger] alts[j],
                    pid == self.pos_of(id),
                    pid < self.node_count() ==> value@ == self.value_chars_at(pid),
                    pid >= self.node_count() ==> value@.len() == 0,
                    matched ==> (pid < self.node_count() && exists|j: int|
                        0 <= j < alts.len() && self.value_chars_at(pid) == spec_trim(
                            #[trigger] alts[j],
                        )),
                    !matched ==> (forall|j: int|
                        0 <= j < a ==> !(pid < self.node_count() && self.value_chars_at(pid)
                            == spec_trim(#[trigger] alts[j]))),
                decreases alternatives@.len() - a,
            {
                let ghost oldmatched = matched;
                let pat = trim_chars(&alternatives[a]);
                let same = chars_eq(value.as_slice(), pat.as_slice());
                let known = Self::id_known(self, id);
                if same && known {
                    matched = true;
                }
                proof {
                    assert(pat@ == spec_trim(alts[a as int]));
                    if same && known {
                        assert(value@ == self.value_chars_at(pid));
                        assert(self.value_chars_at(pid) == spec_trim(alts[a as int]));
                    } else if !oldmatched {
                        if known && pid < self.node_count() {
                            assert(value@ == self.value_chars_at(pid));
                        }
                        assert(!(pid < self.node_count() && self.value_chars_at(pid)
                            == spec_trim(alts[a as int])));
                    }
                }
                a = a + 1;
            }
            if matched {
                out.push(id);
            }
            proof {
                assert(cur.drop_last() =~= pre);
                assert(cur.last() == id);
                assert(matched == spec_eq_matches(*self, id, eq@)) by {
                    if spec_eq_matches(*self, id, eq@) && !matched {
                        let j = choose|j: int|
                            0 <= j < spec_alternatives(eq@).len() && self.value_chars_at(
                                self.pos_of(id),
                            ) == spec_trim(#[trigger] spec_alternatives(eq@)[j]);
                        assert(!(pid < self.node_count() && self.value_chars_at(pid)
                            == spec_trim(alts[j])));
                        assert(false);
                    }
                    if matched {
                        let j = choose|j: int|
                            0 <= j < alts.len() && self.value_chars_at(pid) == spec_trim(
                                #[trigger] alts[j],
                            );
                        assert(spec_alternatives(eq@)[j] == alts[j]);
                    }
                }
                if matched {
                    assert(out@ =~= spec_eq_filter(*self, pre, eq@) + seq![id]);
                } else {
                    assert(out@ =~= spec_eq_filter(*self, pre, eq@) + Seq::<u64>::empty());
                }
            }
            i = i + 1;
        }
        proof {
            assert(existing@.subrange(0, existing@.len() as int) =~= existing@);
        }
        out
    }

    /// Whether the document holds an identifier.
    fn id_known(&self, id: u64) -> (r: bool)
        ensures
            r == (self.pos_of(id) < self.node_count()),
    {
        match self.nodes.position_of(id) {
            Some(_) => true,
            None => false,
        }
    }
}


impl Hson {
    /// Splits a component at its first `=` into the key and the filter.
    fn comp_split(&self, comp: &Vec<char>) -> (r: (Vec<char>, Vec<char>))
        ensures
            r.0@ == spec_comp_key(comp@),
            r.1@ == spec_comp_eq(comp@),
    {
        let len = comp.len();
        let mut e: usize = 0;
        while e < len && comp[e] != '='
            invariant
                0 <= e <= len,
                len == comp@.len(),
                forall|j: int| 0 <= j < e ==> comp@[j] != '=',
            decreases len - e,
        {
            e = e + 1;
        }
        proof {
            crate::chars::lemma_find_skip(comp@, e as int, '=', '=');
        }
        if e < len {
            let key = crate::query::copy_slice(comp.as_slice(), 0, e);
            let eq = crate::query::copy_slice(comp.as_slice(), e + 1, len);
            (key, eq)
        } else {
            let key = crate::query::copy_slice(comp.as_slice(), 0, len);
            proof {
                assert(key@ =~= comp@);
            }
            (key, Vec::new())
        }
    }

    /// One plain component: recursive lookups from every node of the
    /// current set, the equality filter applied to each batch.
    fn find_descendants(&self, comp: &Vec<char>, existing: &Vec<u64>) -> (r: Result<
        Vec<u64>,
        HsonError,
    >)
        requires
            self.wf(),
        ensures
            r is Ok,
            r->Ok_0@ == spec_desc_step(
                *self,
                existing@,
                spec_comp_key(comp@),
                spec_comp_eq(comp@),
            ),
    {
        let (key, eq) = self.comp_split(comp);
        let keystr = crate::chars::chars_to_string(key.as_slice());
        let mut results: Vec<u64> = Vec::new();
        let mut i: usize = 0;
        while i < existing.len()
            invariant
                self.wf(),
                0 <= i <= existing@.len(),
                key@ == spec_comp_key(comp@),
                eq@ == spec_comp_eq(comp@),
                keystr@ == key@,
                results@ == spec_desc_step(
                    *self,
                    existing@.subrange(0, i as int),
                    key@,
                    eq@,
                ),
            decreases existing@.len() - i,
        {
            let rid = existing[i];
            let ghost pre = existing@.subrange(0, i as int);
            let ghost cur = existing@.subrange(0, i + 1 as int);
            let batch = match self.query_on(rid, keystr.as_str(), true) {
                Ok(v) => v,
                Err(e) => {
                    proof {
                        assert(false);
                    }
                    return Err(e);
                },
            };
            let filtered = self.filter_equality_childs(&eq, &batch);
            let mut t: usize = 0;
            while t < filtered.len()
                invariant
                    0 <= t <= filtered@.len(),
                    results@ == spec_desc_step(*self, pre, key@, eq@) + filtered@.subrange(
                        0,
                        t as int,
                    ),
                decreases filtered@.len() - t,
            {
                results.push(filtered[t]);
                proof {
                    assert(results@ =~= spec_desc_step(*self, pre, key@, eq@)
                        + filtered@.subrange(0, t + 1 as int));
                }
                t = t + 1;
            }
            proof {
                assert(cur.drop_last() =~= pre);
                assert(cur.last() == rid);
                assert(filtered@.subrange(0, filtered@.len() as int) =~= filtered@);
                assert(results@ =~= spec_desc_step(*self, cur, key@, eq@));
            }
            i = i + 1;
        }
        proof {
            assert(existing@.subrange(0, existing@.len() as int) =~= existing@);
        }
        Ok(results)
    }

    /// One hop of a direct-child chain over the whole current set.
    fn child_hop(&self, comp: &Vec<char>, existing: &Vec<u64>, recursive: bool) -> (r: Result<
        Vec<u64>,
        HsonError,
    >)
        requires
            self.wf(),
        ensures
            r is Ok,
            r->Ok_0@ == spec_child_step(
                *self,
                existing@,
                spec_comp_key(comp@),
                spec_comp_eq(comp@),
                recursive,
            ),
    {
        let (key, eq) = self.comp_split(comp);
        let keystr = crate::chars::chars_to_string(key.as_slice());
        let mut results: Vec<u64> = Vec::new();
        let mut i: usize = 0;
        while i < existing.len()
            invariant
                self.wf(),
                0 <= i <= existing@.len(),
                key@ == spec_comp_key(comp@),
                eq@ == spec_comp_eq(comp@),
                keystr@ == key@,
                results@ == spec_child_step(
                    *self,
                    existing@.subrange(0, i as int),
                    key@,
                    eq@,
                    recursive,
                ),
            decreases existing@.len() - i,
        {
            let rid = existing[i];
            let ghost pre = existing@.subrange(0, i as int);
            let ghost cur = existing@.subrange(0, i + 1 as int);
            let batch = match self.query_on(rid, keystr.as_str(), recursive) {
                Ok(v) => v,
                Err(e) => {
                    proof {
                        assert(false);
                    }
                    return Err(e);
                },
            };
            let filtered = self.filter_equality_childs(&eq, &batch);
            let mut t: usize = 0;
            while t < filtered.len()
                invariant
                    0 <= t <= filtered@.len(),
                    results@ == spec_child_step(*self, pre, key@, eq@, recursive)
                        + filtered@.subrange(0, t as int),
                decreases filtered@.len() - t,
            {
                results.push(filtered[t]);
                proof {
                    assert(results@ =~= spec_child_step(*self, pre, key@, eq@, recursive)
                        + filtered@.subrange(0, t + 1 as int));
                }
                t = t + 1;
            }
            proof {
                assert(cur.drop_last() =~= pre);
                assert(cur.last() == rid);
                assert(filtered@.subrange(0, filtered@.len() as int) =~= filtered@);
                assert(results@ =~= spec_child_step(*self, cur, key@, eq@, recursive));
            }
            i = i + 1;
        }
        proof {
            assert(existing@.subrange(0, existing@.len() as int) =~= existing@);
        }
        Ok(results)
    }

    /// A direct-child chain part: the first hop from the current set may be
    /// recursive, every later hop takes direct children only; a part
    /// opening with `>` makes even the first hop direct.
    fn find_childs(&self, part: &Vec<char>, existing: &Vec<u64>, first: bool) -> (r: Result<
        Vec<u64>,
        HsonError,
    >)
        requires
            self.wf(),
        ensures
            r is Ok,
            r->Ok_0@ == ({
                let elems = spec_split_char(part@, '>');
                if elems.len() > 0 && elems[0].len() == 0 {
                    spec_chain_eval(*self, elems, 1, existing@, false)
                } else {
                    spec_chain_eval(*self, elems, 0, existing@, first)
                }
            }),
    {
        let elements = split_char(part, '>');
        let ghost elems = spec_split_char(part@, '>');
        let mut results = crate::doc::clone_ids(existing);
        let mut ei: usize = 0;
        let mut hop_recursive = first;
        if elements[0].len() == 0 {
            ei = 1;
            hop_recursive = false;
        }
        let ghost e0 = ei as int;
        let ghost r0 = hop_recursive;
        while ei < elements.len()
            invariant
                self.wf(),
                e0 <= ei as int <= elems.len(),
                elements@.len() == elems.len(),
                forall|j: int| 0 <= j < elems.len() ==> elements@[j]@ == #[trigger] elems[j],
                spec_chain_eval(*self, elems, e0, existing@, r0) == spec_chain_eval(
                    *self,
                    elems,
                    ei as int,
                    results@,
                    hop_recursive,
                ),
                ei as int > e0 ==> !hop_recursive,
            decreases elems.len() - ei,
        {
            let elm = &elements[ei];
            let next = match self.child_hop(elm, &results, hop_recursive) {
                Ok(v) => v,
                Err(e) => {
                    proof {
                        assert(false);
                    }
                    return Err(e);
                },
            };
            results = next;
            hop_recursive = false;
            ei = ei + 1;
        }
        Ok(results)
    }

    /// An alternation part: the union of recursive lookups for each
    /// alternative over the current set.
    fn find_multiple_childs(&self, part: &Vec<char>, existing: &Vec<u64>) -> (r: Result<
        Vec<u64>,
        HsonError,
    >)
        requires
            self.wf(),
        ensures
            r is Ok,
            r->Ok_0@ == spec_multi_eval(*self, spec_split_char(part@, '|'), 0, existing@),
    {
        let elements = split_char(part, '|');
        let ghost alts = spec_split_char(part@, '|');
        let mut results: Vec<u64> = Vec::new();
        let mut ai: usize = 0;
        let ghost mut done: Seq<u64> = Seq::empty();
        proof {
            assert(results@ =~= Seq::<u64>::empty());
        }
        while ai < elements.len()
            invariant
                self.wf(),
                0 <= ai as int <= alts.len(),
                elements@.len() == alts.len(),
                forall|j: int| 0 <= j < alts.len() ==> elements@[j]@ == #[trigger] alts[j],
                spec_multi_eval(*self, alts, 0, existing@) == results@ + spec_multi_eval(
                    *self,
                    alts,
                    ai as int,
                    existing@,
                ),
            decreases alts.len() - ai,
        {
            let elm = &elements[ai];
            let batch = match self.find_descendants(elm, existing) {
                Ok(v) => v,
                Err(e) => {
                    proof {
                        assert(false);
                    }
                    return Err(e);
                },
            };
            let mut t: usize = 0;
            let ghost base = results@;
            while t < batch.len()
                invariant
                    0 <= t <= batch@.len(),
                    results@ == base + batch@.subrange(0, t as int),
                decreases batch@.len() - t,
            {
                results.push(batch[t]);
                proof {
                    assert(results@ =~= base + batch@.subrange(0, t + 1 as int));
                }
                t = t + 1;
            }
            proof {
                assert(batch@.subrange(0, batch@.len() as int) =~= batch@);
                assert(results@ =~= base + batch@);
            }
            ai = ai + 1;
        }
        Ok(results)
    }

    /// Runs one part of the pipeline.
    fn eval_part(&self, part: &Vec<char>, cur: &Vec<u64>) -> (r: Result<Vec<u64>, HsonError>)
        requires
            self.wf(),
        ensures
            r is Ok,
            r->Ok_0@ == spec_part_eval(*self, part@, cur@),
    {
        let mut has_gt = false;
        let mut has_bar = false;
        let mut i: usize = 0;
        while i < part.len()
            invariant
                0 <= i <= part@.len(),
                has_gt == exists|j: int| 0 <= j < i && part@[j] == '>',
                has_bar == exists|j: int| 0 <= j < i && part@[j] == '|',
            decreases part@.len() - i,
        {
            if part[i] == '>' {
                has_gt = true;
            }
            if part[i] == '|' {
                has_bar = true;
            }
            i = i + 1;
        }
        proof {
            crate::chars::lemma_find_from(part@, 0, '>', '>');
            crate::chars::lemma_find_from(part@, 0, '|', '|');
            let gt = crate::chars::spec_find_from(part@, 0, '>', '>');
            let bar = crate::chars::spec_find_from(part@, 0, '|', '|');
            if has_gt {
                let w = choose|j: int| 0 <= j < part@.len() && part@[j] == '>';
                if gt >= part@.len() {
                    assert(part@[w] != '>');
                }
            }
            if has_bar {
                let w = choose|j: int| 0 <= j < part@.len() && part@[j] == '|';
                if bar >= part@.len() {
                    assert(part@[w] != '|');
                }
            }
        }
        if has_gt {
            self.find_childs(part, cur, true)
        } else if has_bar {
            self.find_multiple_childs(part, cur)
        } else {
            self.find_descendants(part, cur)
        }
    }

    /// Runs the pipeline from one starting node and deduplicates.
    fn run_search(&self, start: u64, query: &str) -> (r: Result<Vec<u64>, HsonError>)
        requires
            self.wf(),
        ensures
            r is Ok,
            r->Ok_0@ == spec_search_from(*self, query@, start),
    {
        let qchars = crate::chars::str_to_chars(query);
        let parts = self.format_query(&qchars);
        let ghost pspecs = spec_format_query(query@);
        let mut results: Vec<u64> = Vec::new();
        results.push(start);
        proof {
            assert(results@ =~= seq![start]);
        }
        let mut pi: usize = 0;
        while pi < parts.len()
            invariant
                self.wf(),
                0 <= pi as int <= pspecs.len(),
                parts@.len() == pspecs.len(),
                forall|j: int| 0 <= j < pspecs.len() ==> parts@[j]@ == #[trigger] pspecs[j],
                spec_pipeline(*self, pspecs, 0, seq![start]) == spec_pipeline(
                    *self,
                    pspecs,
                    pi as int,
                    results@,
                ),
            decreases pspecs.len() - pi,
        {
            let part = &parts[pi];
            let next = match self.eval_part(part, &results) {
                Ok(v) => v,
                Err(e) => {
                    proof {
                        assert(false);
                    }
                    return Err(e);
                },
            };
            results = next;
            pi = pi + 1;
        }
        Ok(self.unique(&results))
    }
}

impl Search for Hson {
    open spec fn search_wf(&self) -> bool {
        self.wf() && self.node_count() > 0
    }

    fn search(&self, query: &str) -> (r: Result<Vec<u64>, HsonError>)
        ensures
            r is Ok,
            r->Ok_0@ == spec_search_from(*self, query@, self.indexes@[0]),
    {
        let root_id = self.get_root();
        self.run_search(root_id, query)
    }

    fn search_in(&self, node_id: u64, query: &str) -> (r: Result<Vec<u64>, HsonError>)
        ensures
            r is Ok,
            r->Ok_0@ == spec_search_from(*self, query@, node_id),
    {
        self.run_search(node_id, query)
    }
}

} // verus!
