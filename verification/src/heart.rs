//! A word from the authors.

use vstd::prelude::*;

verus! {

/// The project's dedication.
pub fn heart() -> (msg: &'static str)
    ensures
        msg@ == "?? \u{2764}\u{fe0f} This project was built with love for the Rust community"@,
{
    "?? \u{2764}\u{fe0f} This project was built with love for the Rust community"
}

} // verus!
