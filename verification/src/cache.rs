//! The key index: for every key string occurring in the document, the
//! identifiers of the nodes carrying that key, in instance order.

use vstd::prelude::*;
use crate::chars::chars_eq;

verus! {

/// One key and the identifiers of the nodes stored under it.
pub struct CacheEntry {
    pub key: Vec<char>,
    pub ids: Vec<u64>,
}

/// The secondary index from key strings to node identifiers.
pub struct KeyCache {
    pub entries: Vec<CacheEntry>,
}

/// The position of the first entry for key `k` in `s[i..]`, or the length
/// of `s` when there is none.
pub open spec fn spec_cache_find(s: Seq<CacheEntry>, k: Seq<char>, i: int) -> int
    decreases s.len() - i,
{
    if i < 0 || i >= s.len() {
        s.len() as int
    } else if s[i].key@ == k {
        i
    } else {
        spec_cache_find(s, k, i + 1)
    }
}

/// What the find position means.
pub proof fn lemma_cache_find(s: Seq<CacheEntry>, k: Seq<char>, i: int)
    requires
        0 <= i <= s.len(),
    ensures
        i <= spec_cache_find(s, k, i) <= s.len(),
        spec_cache_find(s, k, i) < s.len() ==> s[spec_cache_find(s, k, i)].key@ == k,
        forall|j: int| i <= j < spec_cache_find(s, k, i) ==> s[j].key@ != k,
    decreases s.len() - i,
{
    if i < s.len() && s[i].key@ != k {
        lemma_cache_find(s, k, i + 1);
    }
}

impl KeyCache {
    /// An empty index.
    pub fn new() -> (r: KeyCache)
        ensures
            r.entries@.len() == 0,
    {
        KeyCache { entries: Vec::new() }
    }

    /// The position of the entry for a key, or nothing.
    pub fn find(&self, k: &[char]) -> (r: Option<usize>)
        ensures
            match r {
                Some(p) => p == spec_cache_find(self.entries@, k@, 0) && p < self.entries@.len()
                    && self.entries@[p as int].key@ == k@,
                None => spec_cache_find(self.entries@, k@, 0) == self.entries@.len(),
            },
    {
        let mut i: usize = 0;
        while i < self.entries.len()
            invariant
                0 <= i <= self.entries@.len(),
                forall|j: int| 0 <= j < i ==> self.entries@[j].key@ != k@,
            decreases self.entries@.len() - i,
        {
            if chars_eq(self.entries[i].key.as_slice(), k) {
                proof {
                    lemma_cache_find_skip(self.entries@, k@, i as int);
                }
                return Some(i);
            }
            i = i + 1;
        }
        proof {
            lemma_cache_find_skip(self.entries@, k@, self.entries@.len() as int);
        }
        None
    }
}

/// Skipping entries for other keys leaves the find position alone.
pub proof fn lemma_cache_find_skip(s: Seq<CacheEntry>, k: Seq<char>, j: int)
    requires
        0 <= j <= s.len(),
        forall|i: int| 0 <= i < j ==> s[i].key@ != k,
    ensures
        spec_cache_find(s, k, 0) == spec_cache_find(s, k, j),
    decreases j,
{
    lemma_cache_find_skip_step(s, k, 0, j);
}

proof fn lemma_cache_find_skip_step(s: Seq<CacheEntry>, k: Seq<char>, lo: int, j: int)
    requires
        0 <= lo <= j <= s.len(),
        forall|i: int| lo <= i < j ==> s[i].key@ != k,
    ensures
        spec_cache_find(s, k, lo) == spec_cache_find(s, k, j),
    decreases j - lo,
{
    if lo < j {
        lemma_cache_find_skip_step(s, k, lo + 1, j);
    }
}


/// Two entry sequences with the same keys have the same find positions.
pub proof fn lemma_cache_find_same_keys(s1: Seq<CacheEntry>, s2: Seq<CacheEntry>, k: Seq<char>, i: int)
    requires
        s1.len() == s2.len(),
        forall|j: int| 0 <= j < s1.len() ==> s1[j].key@ == s2[j].key@,
        0 <= i <= s1.len(),
    ensures
        spec_cache_find(s1, k, i) == spec_cache_find(s2, k, i),
    decreases s1.len() - i,
{
    if i < s1.len() && s1[i].key@ != k {
        lemma_cache_find_same_keys(s1, s2, k, i + 1);
    }
}

/// Appending an entry moves the find position of an absent key to it and
/// leaves the find position of a present key alone.
pub proof fn lemma_cache_find_push(s: Seq<CacheEntry>, x: CacheEntry, k: Seq<char>, i: int)
    requires
        0 <= i <= s.len(),
    ensures
        spec_cache_find(s, k, i) < s.len() ==> spec_cache_find(s.push(x), k, i)
            == spec_cache_find(s, k, i),
        spec_cache_find(s, k, i) == s.len() && x.key@ == k ==> spec_cache_find(s.push(x), k, i)
            == s.len(),
        spec_cache_find(s, k, i) == s.len() && x.key@ != k ==> spec_cache_find(s.push(x), k, i)
            == s.len() + 1,
    decreases s.len() - i,
{
    if i == s.len() {
        assert(s.push(x).len() == s.len() + 1);
        assert(s.push(x)[i] == x);
        if x.key@ != k {
            assert(spec_cache_find(s.push(x), k, i + 1) == s.len() + 1);
        }
    } else if s[i].key@ == k {
        assert(s.push(x)[i] == s[i]);
    } else {
        assert(s.push(x)[i] == s[i]);
        lemma_cache_find_push(s, x, k, i + 1);
    }
}

} // verus!
