use crate::subdivide::random_u64;
use vstd::prelude::*;

verus! {

/// Removes an element chosen at random from `v` and returns it; the others keep their order.
pub fn rand_select<T>(v: &mut Vec<T>) -> (r: T)
    requires
        old(v)@.len() > 0,
    ensures
        exists|i: int|
            0 <= i < old(v)@.len() && r == old(v)@[i] && final(v)@ == old(v)@.remove(i),
{
    let idx = (random_u64() as usize) % v.len();
    v.remove(idx)
}

} // verus!
