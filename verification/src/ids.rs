use vstd::prelude::*;

verus! {

/// Hands out the id held by `next_id` and moves it on to the following one.
pub fn get_next_id(next_id: &mut u128) -> (id: u128)
    requires
        *old(next_id) < u128::MAX,
    ensures
        id == *old(next_id),
        *final(next_id) == *old(next_id) + 1,
{
    let next = *next_id;
    *next_id = *next_id + 1;
    next
}

} // verus!
