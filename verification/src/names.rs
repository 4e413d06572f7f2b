//! Membership of a text in a fixed list of names.

use vstd::prelude::*;
use crate::text::str_eq;

verus! {

/// The texts of a list of string slices.
pub open spec fn texts(names: Seq<&str>) -> Seq<Seq<char>> {
    names.map_values(|n: &str| n@)
}

/// Whether `s` is one of `names`.
pub fn one_of(s: &str, names: &Vec<&str>) -> (found: bool)
    ensures
        found == texts(names@).contains(s@),
{
    let mut i: usize = 0;
    while i < names.len()
        invariant
            i <= names@.len(),
            forall|j: int| 0 <= j < i ==> names@[j]@ != s@,
        decreases names@.len() - i,
    {
        if str_eq(names[i], s) {
            assert(texts(names@)[i as int] == s@);
            return true;
        }
        i = i + 1;
    }
    proof {
        if texts(names@).contains(s@) {
            let j = choose|j: int| 0 <= j < texts(names@).len() && texts(names@)[j] == s@;
            assert(names@[j]@ == s@);
        }
    }
    false
}

} // verus!
