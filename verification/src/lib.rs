//! A small JSON lexer: `tokenize` turns raw text into a sequence of typed
//! tokens, or reports the first lexical error it meets.

use vstd::prelude::*;

pub mod tokenize;

verus! {

/// Sum of two counters; the caller keeps the total within `u64`.
pub fn add(left: u64, right: u64) -> (r: u64)
    requires
        left + right <= u64::MAX,
    ensures
        r == left + right,
{
    left + right
}

} // verus!
