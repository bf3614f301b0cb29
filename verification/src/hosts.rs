use vstd::prelude::*;
use vstd::string::*;

use crate::text::{contains_text, text_contains};

verus! {

/// The tag that marks the preferred audio backend in a host's name.
pub open spec fn preferred_tag() -> Seq<char> {
    seq!['A', 's', 'i', 'o']
}

/// Picks the host to start with among the available hosts, given their
/// names: the first one whose name mentions `Asio`; `None` when no name
/// does (the platform's default host is used then).
pub fn preferred_host(names: &Vec<String>) -> (r: Option<usize>)
    ensures
        match r {
            Some(i) => {
                &&& i < names@.len()
                &&& contains_text(names@[i as int]@, preferred_tag())
                &&& forall|j: int| 0 <= j < i ==> !contains_text(#[trigger] names@[j]@, preferred_tag())
            },
            None => forall|j: int|
                0 <= j < names@.len() ==> !contains_text(#[trigger] names@[j]@, preferred_tag()),
        },
{
    let tag = "Asio";
    proof {
        reveal_strlit("Asio");
        assert(tag@ =~= preferred_tag());
    }
    let mut i: usize = 0;
    while i < names.len()
        invariant
            tag@ == preferred_tag(),
            i <= names@.len(),
            forall|j: int| 0 <= j < i ==> !contains_text(#[trigger] names@[j]@, preferred_tag()),
        decreases names@.len() - i,
    {
        if text_contains(names[i].as_str(), tag) {
            return Some(i);
        }
        i = i + 1;
    }
    None
}

/// Finds the host saved in the configuration among the available hosts,
/// given their names: the first one with exactly the saved name.  An absent
/// or empty saved name finds nothing.
pub fn saved_host(names: &Vec<String>, saved: &Option<String>) -> (r: Option<usize>)
    ensures
        match saved {
            None => r is None,
            Some(s) => if s@.len() == 0 {
                r is None
            } else {
                match r {
                    Some(i) => {
                        &&& i < names@.len()
                        &&& names@[i as int]@ == s@
                        &&& forall|j: int| 0 <= j < i ==> #[trigger] names@[j]@ != s@
                    },
                    None => forall|j: int| 0 <= j < names@.len() ==> #[trigger] names@[j]@ != s@,
                }
            },
        },
{
    match saved {
        None => None,
        Some(s) => {
            if s.as_str().unicode_len() == 0 {
                return None;
            }
            let mut i: usize = 0;
            while i < names.len()
                invariant
                    *saved == Some(*s),
                    s@.len() != 0,
                    i <= names@.len(),
                    forall|j: int| 0 <= j < i ==> #[trigger] names@[j]@ != s@,
                decreases names@.len() - i,
            {
                if names[i] == *s {
                    return Some(i);
                }
                i = i + 1;
            }
            None
        },
    }
}

} // verus!
