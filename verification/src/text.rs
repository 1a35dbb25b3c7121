//! String helpers that the standard library offers without a verified contract.

use vstd::prelude::*;

verus! {

/// Compares two string slices with `str::eq`, which holds exactly when both
/// hold the same characters.
#[verifier::external_body]
pub(crate) fn str_eq(a: &str, b: &str) -> (same: bool)
    ensures
        same == (a@ == b@),
{
    a == b
}

} // verus!
