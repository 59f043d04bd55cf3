//! The one source of chance: uniform draws from the generator of the thread.

use crate::fixed::ONE;
use vstd::prelude::*;

verus! {

/// Calls `rand::random_range` with the range from `0` up to, not including,
/// `bound`. The range is not empty, so the call does not panic, and it
/// returns a number of that range; which one is left open.
#[verifier::external_body]
fn random_below(bound: u64) -> (r: u64)
    requires
        0 < bound,
    ensures
        r < bound,
{
    rand::random_range(0..bound)
}

/// A fraction drawn uniformly from `[0, 1)`, in millionths.
pub fn random_unit() -> (r: i64)
    ensures
        0 <= r < ONE,
{
    random_below(1_000_000) as i64
}

/// A position drawn uniformly from a list of `len` entries; `None` for an
/// empty list.
pub fn random_index(len: usize) -> (r: Option<usize>)
    ensures
        len == 0 <==> r is None,
        r matches Some(i) ==> i < len,
{
    if len == 0 {
        None
    } else {
        Some(random_below(len as u64) as usize)
    }
}

} // verus!
