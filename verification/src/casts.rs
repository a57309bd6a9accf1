//! Reading a vertex's materialized key and value as plain values.

use vstd::prelude::*;
use crate::chars::chars_to_string;
use crate::chars::str_to_chars;
use crate::node::Vertex;

verus! {

/// The items of an array value's text: split on commas outside string
/// literals, with the double quotes themselves dropped.
pub open spec fn spec_array_items(
    s: Seq<char>,
    i: int,
    in_string: bool,
    previous: char,
    item: Seq<char>,
) -> Seq<Seq<char>>
    decreases s.len() - i,
{
    if i < 0 || i >= s.len() {
        if item.len() > 0 {
            seq![item]
        } else {
            Seq::empty()
        }
    } else {
        let c = s[i];
        if c == '"' {
            let ins = if !in_string {
                true
            } else if previous != '\\' {
                false
            } else {
                in_string
            };
            spec_array_items(s, i + 1, ins, c, item)
        } else if c == ',' && !in_string {
            seq![item] + spec_array_items(s, i + 1, in_string, c, Seq::empty())
        } else {
            spec_array_items(s, i + 1, in_string, c, item.push(c))
        }
    }
}

impl Vertex {
    /// The key, as it stands.
    pub fn key_as_string(&self) -> (r: Option<String>)
        ensures
            r is Some,
            r->Some_0@ == self.key@,
    {
        let v = str_to_chars(self.key.as_str());
        Some(chars_to_string(v.as_slice()))
    }

    /// The value, as it stands.
    pub fn value_as_string(&self) -> (r: Option<String>)
        ensures
            r is Some,
            r->Some_0@ == self.value@,
    {
        let v = str_to_chars(self.value.as_str());
        Some(chars_to_string(v.as_slice()))
    }

    /// The value read as a boolean literal.
    pub fn value_as_bool(&self) -> (r: Option<bool>)
        ensures
            r == (if self.value@ == seq!['t', 'r', 'u', 'e'] {
                Some(true)
            } else if self.value@ == seq!['f', 'a', 'l', 's', 'e'] {
                Some(false)
            } else {
                None::<bool>
            }),
    {
        let chars = str_to_chars(self.value.as_str());
        if chars.len() == 4 && chars[0] == 't' && chars[1] == 'r' && chars[2] == 'u' && chars[3]
            == 'e' {
            proof {
                assert(self.value@ =~= seq!['t', 'r', 'u', 'e']);
            }
            Some(true)
        } else if chars.len() == 5 && chars[0] == 'f' && chars[1] == 'a' && chars[2] == 'l'
            && chars[3] == 's' && chars[4] == 'e' {
            proof {
                assert(self.value@ =~= seq!['f', 'a', 'l', 's', 'e']);
            }
            Some(false)
        } else {
            proof {
                if self.value@ == seq!['t', 'r', 'u', 'e'] {
                    assert(chars@.len() == 4 && chars@[0] == 't' && chars@[1] == 'r' && chars@[2]
                        == 'u' && chars@[3] == 'e');
                }
                if self.value@ == seq!['f', 'a', 'l', 's', 'e'] {
                    assert(chars@.len() == 5 && chars@[0] == 'f' && chars@[1] == 'a' && chars@[2]
                        == 'l' && chars@[3] == 's' && chars@[4] == 'e');
                }
            }
            None
        }
    }

    /// The value split into the items of an array: comma-separated runs
    /// outside string literals, quotes dropped.
    pub fn value_as_array(&self) -> (r: Option<Vec<String>>)
        ensures
            r is Some,
            ({
                let items = spec_array_items(self.value@, 0, false, ' ', Seq::empty());
                &&& r->Some_0@.len() == items.len()
                &&& forall|j: int| 0 <= j < items.len() ==> r->Some_0@[j]@ == items[j]
            }),
    {
        let chars = str_to_chars(self.value.as_str());
        let n = chars.len();
        let mut values: Vec<String> = Vec::new();
        let ghost mut built: Seq<Seq<char>> = Seq::empty();
        let mut in_string = false;
        let mut previous = ' ';
        let mut item: Vec<char> = Vec::new();
        let mut i: usize = 0;
        proof {
            assert(item@ =~= Seq::<char>::empty());
        }
        while i < n
            invariant
                n == chars@.len(),
                chars@ == self.value@,
                0 <= i <= n,
                values@.len() == built.len(),
                forall|j: int| 0 <= j < built.len() ==> values@[j]@ == #[trigger] built[j],
                spec_array_items(self.value@, 0, false, ' ', Seq::empty()) == built
                    + spec_array_items(self.value@, i as int, in_string, previous, item@),
            decreases n - i,
        {
            let c = chars[i];
            if c == '"' {
                if !in_string {
                    in_string = true;
                } else if previous != '\\' {
                    in_string = false;
                }
            } else if c == ',' && !in_string {
                let ghost olditem = item@;
                let finished = chars_to_string(item.as_slice());
                values.push(finished);
                item = Vec::new();
                proof {
                    built = built.push(olditem);
                    assert(item@ =~= Seq::<char>::empty());
                }
            } else {
                item.push(c);
            }
            previous = c;
            i = i + 1;
        }
        if item.len() > 0 {
            let finished = chars_to_string(item.as_slice());
            values.push(finished);
            proof {
                built = built.push(item@);
            }
        }
        proof {
            assert(spec_array_items(self.value@, n as int, in_string, previous, item@) == (
            if item@.len() > 0 {
                seq![item@]
            } else {
                Seq::<Seq<char>>::empty()
            }));
            if item@.len() > 0 {
                assert(built =~= built.drop_last().push(item@));
            }
        }
        Some(values)
    }
}

} // verus!
