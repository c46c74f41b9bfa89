//! Token estimates.
use vstd::prelude::*;

verus! {

/// Roughly how many tokens a line of that many bytes takes up: four bytes to the token, and
/// one token more for the rest and the line end.
pub open spec fn line_cost(bytes: nat) -> nat {
    bytes / 4 + 1
}

/// Estimates the tokens of a line from its length in bytes.
pub fn approx_line(bytes: usize) -> (r: usize)
    ensures
        r == line_cost(bytes as nat),
{
    bytes / 4 + 1
}

} // verus!
