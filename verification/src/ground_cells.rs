use vstd::prelude::*;
use vstd::arithmetic::div_mod::lemma_fundamental_div_mod_converse;

verus! {

/// The ground is a square of `BY` by `BY` landscape cells that repeats
/// in every direction.
pub const BY: usize = 3;

/// Folds a cell index that may lie outside the grid back into `0..BY`,
/// as the ground repeats every `BY` cells.
pub fn wrap_value(v: i32) -> (r: i32)
    ensures
        r == v as int % (BY as int),
        0 <= r < BY as int,
{
    let by: i32 = 3;
    let mut r: i32 = v;
    let ghost mut k: int = 0;
    if r >= by {
        while r >= by
            invariant
                by == 3,
                r == v - 3 * k,
                r >= 0,
            decreases r,
        {
            r = r - by;
            proof {
                k = k + 1;
            }
        }
    }
    if r < 0 {
        while r < 0
            invariant
                by == 3,
                r == v - 3 * k,
                r < 3,
            decreases 3 - r,
        {
            r = r + by;
            proof {
                k = k - 1;
            }
        }
    }
    proof {
        lemma_fundamental_div_mod_converse(v as int, 3, k, r as int);
    }
    if r < 0 {
        r = -99;
    }
    if r >= by {
        r = -99;
    }
    r
}

} // verus!

verus! {

/// The ground repeats every `BY` cells: indices `BY` apart fold to the same
/// cell, and an index inside the grid folds to itself.
pub proof fn law_wrap_is_periodic(v: int)
    ensures
        (v + BY as int) % (BY as int) == v % (BY as int),
        0 <= v < BY ==> v % (BY as int) == v,
{
}

} // verus!
