//! Shared ownership of values that never change.
use std::sync::Arc;
use vstd::prelude::*;

verus! {

/// `<Arc<T> as Clone>::clone`: another owner of the same value.
#[verifier::external_body]
pub(crate) fn share<T>(a: &Arc<T>) -> (r: Arc<T>)
    ensures
        r == *a,
{
    a.clone()
}

} // verus!
