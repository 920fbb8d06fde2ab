//! Giving memory back: the two calls into `std` that the library makes for
//! it and that the verifier has no statement of.

use std::collections::HashMap;
use vstd::prelude::*;

verus! {

/// `Vec::shrink_to_fit`: drops spare capacity and keeps the elements as they
/// are.
#[verifier::external_body]
pub(crate) fn shrink_vec<T>(v: &mut Vec<T>)
    ensures
        final(v)@ == old(v)@,
{
    v.shrink_to_fit();
}

/// `HashMap::shrink_to_fit`: drops spare capacity and keeps the entries as
/// they are.
#[verifier::external_body]
pub(crate) fn shrink_map(m: &mut HashMap<u8, u64>)
    ensures
        final(m)@ == old(m)@,
{
    m.shrink_to_fit();
}

} // verus!
