//! Character-level groundwork: the control-character set, the whitespace
//! cleaner that every text entering the store goes through, and the
//! classification of primitive literals.

use vstd::prelude::*;

verus! {

/// The structural characters the scanner reacts to outside string literals.
pub open spec fn spec_is_control(c: char) -> bool {
    c == '{' || c == '}' || c == '[' || c == ']' || c == ':' || c == '"' || c == ','
}

/// Decides whether a character is one of the structural control characters.
pub fn is_control(c: char) -> (r: bool)
    ensures
        r == spec_is_control(c),
{
    c == '{' || c == '}' || c == '[' || c == ']' || c == ':' || c == '"' || c == ','
}

/// Whitespace that is insignificant outside string literals.
pub open spec fn spec_is_ws(c: char) -> bool {
    c == ' ' || c == '\t' || c == '\r' || c == '\n'
}

/// Decides whether a character is insignificant whitespace.
pub fn is_ws(c: char) -> (r: bool)
    ensures
        r == spec_is_ws(c),
{
    c == ' ' || c == '\t' || c == '\r' || c == '\n'
}

/// The cleaner from position `i` on, given whether the scan stands inside a
/// string literal and which character came just before: a string literal
/// starts at an unescaped `"` and ends at the next unescaped `"`; a `"`
/// preceded by `\` toggles nothing.
pub open spec fn spec_clean_from(s: Seq<char>, i: int, in_string: bool, previous: char) -> Seq<char>
    decreases s.len() - i,
{
    if i < 0 || i >= s.len() {
        Seq::empty()
    } else {
        let c = s[i];
        let ins = if c == '"' && previous != '\\' {
            !in_string
        } else {
            in_string
        };
        let rest = spec_clean_from(s, i + 1, ins, c);
        if ins || !spec_is_ws(c) {
            seq![c] + rest
        } else {
            rest
        }
    }
}

/// The cleaned form of a text: every character kept, in order, except
/// insignificant whitespace standing outside string literals.
pub open spec fn spec_clean(s: Seq<char>) -> Seq<char> {
    spec_clean_from(s, 0, false, ' ')
}

/// Strips insignificant whitespace from a text, keeping string literals
/// (delimited by unescaped double quotes) intact.
pub fn clean(s: &[char]) -> (r: Vec<char>)
    ensures
        r@ == spec_clean(s@),
{
    let mut out: Vec<char> = Vec::new();
    let mut in_string = false;
    let mut previous = ' ';
    let mut i: usize = 0;
    while i < s.len()
        invariant
            0 <= i <= s@.len(),
            spec_clean(s@) == out@ + spec_clean_from(s@, i as int, in_string, previous),
        decreases s@.len() - i,
    {
        let c = s[i];
        if c == '"' && previous != '\\' {
            in_string = !in_string;
        }
        if in_string || !is_ws(c) {
            out.push(c);
        }
        previous = c;
        i = i + 1;
    }
    out
}

/// Copies the characters of a text into a vector.
pub fn str_to_chars(s: &str) -> (r: Vec<char>)
    ensures
        r@ == s@,
{
    let n = s.unicode_len();
    let mut out: Vec<char> = Vec::new();
    let mut i: usize = 0;
    while i < n
        invariant
            0 <= i <= n,
            n == s@.len(),
            out@ == s@.subrange(0, i as int),
        decreases n - i,
    {
        let c = s.get_char(i);
        out.push(c);
        proof {
            assert(out@ =~= s@.subrange(0, i + 1 as int));
        }
        i = i + 1;
    }
    proof {
        assert(out@ =~= s@);
    }
    out
}

/// Decides whether two character sequences are equal.
pub fn chars_eq(a: &[char], b: &[char]) -> (r: bool)
    ensures
        r == (a@ == b@),
{
    if a.len() != b.len() {
        proof {
            assert(a@.len() != b@.len());
        }
        return false;
    }
    let mut i: usize = 0;
    while i < a.len()
        invariant
            0 <= i <= a@.len(),
            a@.len() == b@.len(),
            forall|j: int| 0 <= j < i ==> a@[j] == b@[j],
        decreases a@.len() - i,
    {
        if a[i] != b[i] {
            return false;
        }
        i = i + 1;
    }
    proof {
        assert(a@ =~= b@);
    }
    true
}

/// An ASCII decimal digit.
pub open spec fn spec_is_digit(c: char) -> bool {
    '0' <= c && c <= '9'
}

/// Decides whether a character is an ASCII decimal digit.
pub fn is_digit(c: char) -> (r: bool)
    ensures
        r == spec_is_digit(c),
{
    '0' <= c && c <= '9'
}

/// Every character of `s` in `[from, to)` is a decimal digit.
pub open spec fn spec_all_digits(s: Seq<char>, from: int, to: int) -> bool {
    forall|j: int| from <= j < to ==> spec_is_digit(s[j])
}

/// The numeric value of the digit run `s[from..to]`.
pub open spec fn spec_digits_val(s: Seq<char>, from: int, to: int) -> int
    decreases to - from,
{
    if to <= from {
        0
    } else {
        spec_digits_val(s, from, to - 1) * 10 + (s[to - 1] as int - '0' as int)
    }
}

/// A literal accepted by a signed 64-bit integer read: an optional sign,
/// then at least one digit, with the value inside the 64-bit range.
pub open spec fn spec_is_int_literal(s: Seq<char>) -> bool {
    let start: int = if s.len() > 0 && (s[0] == '+' || s[0] == '-') {
        1
    } else {
        0
    };
    &&& s.len() > start
    &&& spec_all_digits(s, start, s.len() as int)
    &&& (if s.len() > 0 && s[0] == '-' {
        spec_digits_val(s, start, s.len() as int) <= 0x8000_0000_0000_0000
    } else {
        spec_digits_val(s, start, s.len() as int) <= 0x7fff_ffff_ffff_ffff
    })
}

proof fn lemma_digits_val_bounds(s: Seq<char>, from: int, to: int)
    requires
        spec_all_digits(s, from, to),
        0 <= from <= to <= s.len(),
    ensures
        0 <= spec_digits_val(s, from, to),
    decreases to - from,
{
    if to > from {
        lemma_digits_val_bounds(s, from, to - 1);
    }
}

/// Decides whether a character run reads as a signed 64-bit integer.
pub fn is_int_literal(s: &[char]) -> (r: bool)
    ensures
        r == spec_is_int_literal(s@),
{
    let n = s.len();
    let neg = n > 0 && s[0] == '-';
    let start: usize = if n > 0 && (s[0] == '+' || s[0] == '-') {
        1
    } else {
        0
    };
    if n <= start {
        return false;
    }
    let limit: u64 = if neg {
        0x8000_0000_0000_0000
    } else {
        0x7fff_ffff_ffff_ffff
    };
    let mut acc: u64 = 0;
    let mut i: usize = start;
    while i < n
        invariant
            start <= i <= n,
            n == s@.len(),
            start <= 1,
            n > start,
            neg == (s@.len() > 0 && s@[0] == '-'),
            start == 1 <==> (s@.len() > 0 && (s@[0] == '+' || s@[0] == '-')),
            spec_all_digits(s@, start as int, i as int),
            acc == spec_digits_val(s@, start as int, i as int),
            acc <= limit,
            limit == if neg {
                0x8000_0000_0000_0000u64
            } else {
                0x7fff_ffff_ffff_ffffu64
            },
        decreases n - i,
    {
        let c = s[i];
        if !is_digit(c) {
            return false;
        }
        proof {
            assert(c as u32 >= '0' as u32);
        }
        let d: u64 = (c as u32 - '0' as u32) as u64;
        if acc > limit / 10 || (acc == limit / 10 && d > limit % 10) {
            // one more digit pushes the value past the 64-bit limit, and the
            // value of a longer digit run only grows
            proof {
                if spec_is_int_literal(s@) {
                    assert(spec_digits_val(s@, start as int, i + 1) == acc * 10 + d);
                    assert(acc * 10 + d > limit);
                    digits_val_monotone(s@, start as int, i + 1, n as int);
                }
            }
            return false;
        }
        acc = acc * 10 + d;
        i = i + 1;
    }
    true
}

/// From a longer digit run the value only grows.
proof fn digits_val_monotone(s: Seq<char>, from: int, mid: int, to: int)
    requires
        0 <= from <= mid <= to <= s.len(),
        spec_all_digits(s, from, to),
    ensures
        spec_digits_val(s, from, to) >= spec_digits_val(s, from, mid),
    decreases to - mid,
{
    if to > mid {
        digits_val_monotone(s, from, mid, to - 1);
        lemma_digits_val_bounds(s, from, to - 1);
    }
}

/// Decides whether every character in `[from, to)` is a digit.
pub fn all_digits(s: &[char], from: usize, to: usize) -> (r: bool)
    requires
        from <= to <= s@.len(),
    ensures
        r == spec_all_digits(s@, from as int, to as int),
{
    let mut i: usize = from;
    while i < to
        invariant
            from <= i <= to <= s@.len(),
            spec_all_digits(s@, from as int, i as int),
        decreases to - i,
    {
        if !is_digit(s[i]) {
            return false;
        }
        i = i + 1;
    }
    true
}

/// The boolean literals.
pub open spec fn spec_is_bool_literal(s: Seq<char>) -> bool {
    s == seq!['t', 'r', 'u', 'e'] || s == seq!['f', 'a', 'l', 's', 'e']
}

/// Decides whether a character run is `true` or `false`.
pub fn is_bool_literal(s: &[char]) -> (r: bool)
    ensures
        r == spec_is_bool_literal(s@),
{
    if s.len() == 4 && s[0] == 't' && s[1] == 'r' && s[2] == 'u' && s[3] == 'e' {
        proof {
            assert(s@ =~= seq!['t', 'r', 'u', 'e']);
        }
        true
    } else if s.len() == 5 && s[0] == 'f' && s[1] == 'a' && s[2] == 'l' && s[3] == 's' && s[4]
        == 'e' {
        proof {
            assert(s@ =~= seq!['f', 'a', 'l', 's', 'e']);
        }
        true
    } else {
        proof {
            if s@ == seq!['t', 'r', 'u', 'e'] {
                assert(s@.len() == 4 && s@[0] == 't' && s@[1] == 'r' && s@[2] == 'u' && s@[3]
                    == 'e');
            }
            if s@ == seq!['f', 'a', 'l', 's', 'e'] {
                assert(s@.len() == 5 && s@[0] == 'f' && s@[1] == 'a' && s@[2] == 'l' && s@[3]
                    == 's' && s@[4] == 'e');
            }
        }
        false
    }
}

/// The position of the first occurrence of one of two characters in
/// `s[i..]`, or the length of `s` when there is none.
pub open spec fn spec_find_from(s: Seq<char>, i: int, a: char, b: char) -> int
    decreases s.len() - i,
{
    if i < 0 || i >= s.len() {
        s.len() as int
    } else if s[i] == a || s[i] == b {
        i
    } else {
        spec_find_from(s, i + 1, a, b)
    }
}

/// What the find position means: it is in range, holds a match unless it is
/// the length, and nothing before it matches.
pub proof fn lemma_find_from(s: Seq<char>, i: int, a: char, b: char)
    requires
        0 <= i <= s.len(),
    ensures
        i <= spec_find_from(s, i, a, b) <= s.len(),
        spec_find_from(s, i, a, b) < s.len() ==> (s[spec_find_from(s, i, a, b)] == a || s[
            spec_find_from(s, i, a, b)
        ] == b),
        forall|j: int|
            i <= j < spec_find_from(s, i, a, b) ==> !(s[j] == a || s[j] == b),
    decreases s.len() - i,
{
    if i < s.len() && !(s[i] == a || s[i] == b) {
        lemma_find_from(s, i + 1, a, b);
    }
}

/// Skipping over positions that do not match leaves the find position alone.
pub proof fn lemma_find_skip(s: Seq<char>, j: int, a: char, b: char)
    requires
        0 <= j <= s.len(),
        forall|i: int| 0 <= i < j ==> !(s[i] == a || s[i] == b),
    ensures
        spec_find_from(s, 0, a, b) == spec_find_from(s, j, a, b),
    decreases j,
{
    if j > 0 {
        assert(forall|i: int| 1 <= i < j ==> !(s[i] == a || s[i] == b));
        lemma_find_skip_step(s, 0, j, a, b);
    }
}

proof fn lemma_find_skip_step(s: Seq<char>, lo: int, j: int, a: char, b: char)
    requires
        0 <= lo <= j <= s.len(),
        forall|i: int| lo <= i < j ==> !(s[i] == a || s[i] == b),
    ensures
        spec_find_from(s, lo, a, b) == spec_find_from(s, j, a, b),
    decreases j - lo,
{
    if lo < j {
        lemma_find_skip_step(s, lo + 1, j, a, b);
    }
}

/// A mantissa accepted by a 64-bit floating-point read: a digit run, a digit
/// run followed by a dot and an optional digit run, or a dot followed by a
/// digit run. The split is at the first dot.
pub open spec fn spec_is_mantissa(m: Seq<char>) -> bool {
    let d = spec_find_from(m, 0, '.', '.');
    if d == m.len() {
        m.len() >= 1 && spec_all_digits(m, 0, m.len() as int)
    } else {
        &&& spec_all_digits(m, 0, d)
        &&& spec_all_digits(m, d + 1, m.len() as int)
        &&& (d >= 1 || m.len() >= 2)
    }
}

/// An exponent tail: an optional sign, then at least one digit.
pub open spec fn spec_is_exponent(e: Seq<char>) -> bool {
    let start: int = if e.len() > 0 && (e[0] == '+' || e[0] == '-') {
        1
    } else {
        0
    };
    e.len() > start && spec_all_digits(e, start, e.len() as int)
}

/// A character matched without regard to letter case.
pub open spec fn spec_ci(c: char, lower: char, upper: char) -> bool {
    c == lower || c == upper
}

/// The special floating-point words `inf`, `infinity` and `nan`, in any
/// letter case.
pub open spec fn spec_is_float_special(s: Seq<char>) -> bool {
    ||| (s.len() == 3 && spec_ci(s[0], 'i', 'I') && spec_ci(s[1], 'n', 'N') && spec_ci(
        s[2],
        'f',
        'F',
    ))
    ||| (s.len() == 8 && spec_ci(s[0], 'i', 'I') && spec_ci(s[1], 'n', 'N') && spec_ci(
        s[2],
        'f',
        'F',
    ) && spec_ci(s[3], 'i', 'I') && spec_ci(s[4], 'n', 'N') && spec_ci(s[5], 'i', 'I') && spec_ci(
        s[6],
        't',
        'T',
    ) && spec_ci(s[7], 'y', 'Y'))
    ||| (s.len() == 3 && spec_ci(s[0], 'n', 'N') && spec_ci(s[1], 'a', 'A') && spec_ci(
        s[2],
        'n',
        'N',
    ))
}

/// A literal accepted by a 64-bit floating-point read: an optional sign,
/// then a special word or a mantissa split at the first `e`/`E` into a
/// mantissa and an exponent. Such a read never fails on range, only on
/// shape.
pub open spec fn spec_is_float_literal(s: Seq<char>) -> bool {
    let start: int = if s.len() > 0 && (s[0] == '+' || s[0] == '-') {
        1
    } else {
        0
    };
    let body = s.subrange(start, s.len() as int);
    let f = spec_find_from(body, 0, 'e', 'E');
    ||| spec_is_float_special(body)
    ||| (if f == body.len() {
        spec_is_mantissa(body)
    } else {
        spec_is_mantissa(body.subrange(0, f)) && spec_is_exponent(
            body.subrange(f + 1, body.len() as int),
        )
    })
}

/// Decides whether a character matches a letter in either case.
fn is_ci(c: char, lower: char, upper: char) -> (r: bool)
    ensures
        r == spec_ci(c, lower, upper),
{
    c == lower || c == upper
}

/// Decides whether `s[from..]` is one of the special floating-point words.
fn is_float_special(s: &[char], from: usize) -> (r: bool)
    requires
        from <= s@.len(),
    ensures
        r == spec_is_float_special(s@.subrange(from as int, s@.len() as int)),
{
    let n = s.len();
    let len = n - from;
    let ghost body = s@.subrange(from as int, s@.len() as int);
    proof {
        assert(body.len() == len);
        assert(forall|j: int| 0 <= j < body.len() ==> body[j] == s@[from + j]);
    }
    if len == 3 {
        let inf = is_ci(s[from], 'i', 'I') && is_ci(s[from + 1], 'n', 'N') && is_ci(
            s[from + 2],
            'f',
            'F',
        );
        let nan = is_ci(s[from], 'n', 'N') && is_ci(s[from + 1], 'a', 'A') && is_ci(
            s[from + 2],
            'n',
            'N',
        );
        inf || nan
    } else if len == 8 {
        is_ci(s[from], 'i', 'I') && is_ci(s[from + 1], 'n', 'N') && is_ci(s[from + 2], 'f', 'F')
            && is_ci(s[from + 3], 'i', 'I') && is_ci(s[from + 4], 'n', 'N') && is_ci(
            s[from + 5],
            'i',
            'I',
        ) && is_ci(s[from + 6], 't', 'T') && is_ci(s[from + 7], 'y', 'Y')
    } else {
        false
    }
}

/// Decides whether `s[from..to]` is a well-shaped mantissa.
fn is_mantissa(s: &[char], from: usize, to: usize) -> (r: bool)
    requires
        from <= to <= s@.len(),
    ensures
        r == spec_is_mantissa(s@.subrange(from as int, to as int)),
{
    let ghost m = s@.subrange(from as int, to as int);
    proof {
        assert(forall|j: int| 0 <= j < m.len() ==> m[j] == s@[from + j]);
    }
    // find the first dot
    let mut d: usize = from;
    while d < to && s[d] != '.'
        invariant
            from <= d <= to <= s@.len(),
            forall|j: int| from <= j < d ==> s@[j] != '.',
        decreases to - d,
    {
        d = d + 1;
    }
    proof {
        let dd = d - from;
        assert forall|j: int| 0 <= j < dd implies !(m[j] == '.' || m[j] == '.') by {
            assert(m[j] == s@[from + j]);
        }
        lemma_find_skip(m, dd, '.', '.');
        if d < to {
            assert(m[dd] == '.');
        }
        assert(spec_find_from(m, 0, '.', '.') == dd);
    }
    if d == to {
        let r = to > from && all_digits(s, from, to);
        proof {
            if r {
                assert forall|j: int| 0 <= j < m.len() implies spec_is_digit(m[j]) by {
                    assert(m[j] == s@[from + j]);
                }
            }
            if m.len() >= 1 && spec_all_digits(m, 0, m.len() as int) {
                assert forall|j: int| from <= j < to implies spec_is_digit(s@[j]) by {
                    assert(m[j - from] == s@[j]);
                }
            }
        }
        r
    } else {
        // first dot at d
        let left = all_digits(s, from, d);
        let right = all_digits(s, d + 1, to);
        let shape = d - from >= 1 || to - from >= 2;
        let r = left && right && shape;
        proof {
            let dd = d - from;
            if left {
                assert forall|j: int| 0 <= j < dd implies spec_is_digit(m[j]) by {
                    assert(m[j] == s@[from + j]);
                }
            }
            if right {
                assert forall|j: int| dd + 1 <= j < m.len() implies spec_is_digit(m[j]) by {
                    assert(m[j] == s@[from + j]);
                }
            }
            if spec_all_digits(m, 0, dd) {
                assert forall|j: int| from <= j < d implies spec_is_digit(s@[j]) by {
                    assert(m[j - from] == s@[j]);
                }
            }
            if spec_all_digits(m, dd + 1, m.len() as int) {
                assert forall|j: int| d + 1 <= j < to implies spec_is_digit(s@[j]) by {
                    assert(m[j - from] == s@[j]);
                }
            }
        }
        r
    }
}

/// Decides whether `s[from..to]` is a well-shaped exponent tail.
fn is_exponent(s: &[char], from: usize, to: usize) -> (r: bool)
    requires
        from <= to <= s@.len(),
    ensures
        r == spec_is_exponent(s@.subrange(from as int, to as int)),
{
    let ghost e = s@.subrange(from as int, to as int);
    proof {
        assert(forall|j: int| 0 <= j < e.len() ==> e[j] == s@[from + j]);
    }
    let estart: usize = if to > from && (s[from] == '+' || s[from] == '-') {
        from + 1
    } else {
        from
    };
    let r = to > estart && all_digits(s, estart, to);
    proof {
        let sp: int = if e.len() > 0 && (e[0] == '+' || e[0] == '-') {
            1
        } else {
            0
        };
        assert(estart - from == sp);
        if r {
            assert forall|j: int| sp <= j < e.len() implies spec_is_digit(e[j]) by {
                assert(e[j] == s@[from + j]);
            }
        }
        if e.len() > sp && spec_all_digits(e, sp, e.len() as int) {
            assert forall|j: int| estart <= j < to implies spec_is_digit(s@[j]) by {
                assert(e[j - from] == s@[j]);
            }
        }
    }
    r
}

/// Decides whether a character run reads as a 64-bit floating-point number.
pub fn is_float_literal(s: &[char]) -> (r: bool)
    ensures
        r == spec_is_float_literal(s@),
{
    let n = s.len();
    let start: usize = if n > 0 && (s[0] == '+' || s[0] == '-') {
        1
    } else {
        0
    };
    let ghost body = s@.subrange(start as int, n as int);
    proof {
        assert(forall|j: int| 0 <= j < body.len() ==> body[j] == s@[start + j]);
        // tie the locals to the shape the grammar predicate is written in
        let sstart: int = if s@.len() > 0 && (s@[0] == '+' || s@[0] == '-') {
            1
        } else {
            0
        };
        assert(sstart == start as int);
        assert(s@.subrange(sstart, s@.len() as int) == body);
    }
    if is_float_special(s, start) {
        return true;
    }
    // find the first exponent marker
    let mut k: usize = start;
    while k < n && s[k] != 'e' && s[k] != 'E'
        invariant
            start <= k <= n,
            n == s@.len(),
            forall|j: int| start <= j < k ==> s@[j] != 'e' && s@[j] != 'E',
        decreases n - k,
    {
        k = k + 1;
    }
    proof {
        let kd = k - start;
        assert forall|j: int| 0 <= j < kd implies !(body[j] == 'e' || body[j] == 'E') by {
            assert(body[j] == s@[start + j]);
        }
        lemma_find_skip(body, kd, 'e', 'E');
        if k < n {
            assert(body[kd] == 'e' || body[kd] == 'E');
        }
        assert(spec_find_from(body, 0, 'e', 'E') == kd);
    }
    if k == n {
        let r = is_mantissa(s, start, n);
        proof {
            assert(s@.subrange(start as int, n as int) == body);
        }
        r
    } else {
        let m = is_mantissa(s, start, k);
        let e = is_exponent(s, k + 1, n);
        proof {
            let kd = k - start;
            assert(body.subrange(0, kd) =~= s@.subrange(start as int, k as int));
            assert(body.subrange(kd + 1, body.len() as int) =~= s@.subrange(
                k + 1 as int,
                n as int,
            ));
        }
        m && e
    }
}


/// Builds a string from a character sequence.
/// Relies on String's FromIterator over chars: collecting yields exactly
/// those characters in order.
#[verifier::external_body]
pub fn chars_to_string(v: &[char]) -> (r: String)
    ensures
        r@ == v@,
{
    v.iter().collect()
}


/// The position of the first control character in `s[i..]`, or the length
/// of `s` when there is none.
pub open spec fn spec_find_control(s: Seq<char>, i: int) -> int
    decreases s.len() - i,
{
    if i < 0 || i >= s.len() {
        s.len() as int
    } else if spec_is_control(s[i]) {
        i
    } else {
        spec_find_control(s, i + 1)
    }
}

/// What the control find position means.
pub proof fn lemma_find_control(s: Seq<char>, i: int)
    requires
        0 <= i <= s.len(),
    ensures
        i <= spec_find_control(s, i) <= s.len(),
        spec_find_control(s, i) < s.len() ==> spec_is_control(s[spec_find_control(s, i)]),
        forall|j: int| i <= j < spec_find_control(s, i) ==> !spec_is_control(s[j]),
    decreases s.len() - i,
{
    if i < s.len() && !spec_is_control(s[i]) {
        lemma_find_control(s, i + 1);
    }
}


/// Cleaning never lengthens a text.
pub proof fn lemma_clean_len(s: Seq<char>, i: int, in_string: bool, previous: char)
    requires
        0 <= i <= s.len(),
    ensures
        spec_clean_from(s, i, in_string, previous).len() <= s.len() - i,
    decreases s.len() - i,
{
    if i < s.len() {
        let c = s[i];
        let ins = if c == '"' && previous != '\\' {
            !in_string
        } else {
            in_string
        };
        lemma_clean_len(s, i + 1, ins, c);
    }
}

} // verus!
