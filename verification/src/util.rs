//! Miscellaneous functions.

use vstd::prelude::*;

verus! {

/// Zip a slice with itself but rotated forward by one.
pub fn self_zip<T: Copy>(slice: &[T]) -> (res: Vec<(T, T)>)
    ensures
        res@.len() == slice@.len(),
        forall|i: int|
            0 <= i < slice@.len() ==> #[trigger] res@[i] == (
                slice@[i],
                slice@[(i + 1) % (slice@.len() as int)],
            ),
{
    let mut v: Vec<(T, T)> = Vec::with_capacity(slice.len());
    let mut i: usize = 0;
    while i < slice.len()
        invariant
            i <= slice@.len(),
            v@.len() == i,
            forall|j: int|
                0 <= j < i ==> #[trigger] v@[j] == (
                    slice@[j],
                    slice@[(j + 1) % (slice@.len() as int)],
                ),
        decreases slice@.len() - i,
    {
        let next: usize = if i + 1 == slice.len() {
            0
        } else {
            i + 1
        };
        proof {
            let len = slice@.len() as int;
            if i + 1 == len {
                vstd::arithmetic::div_mod::lemma_mod_self_0(len);
            } else {
                vstd::arithmetic::div_mod::lemma_small_mod((i + 1) as nat, len as nat);
            }
        }
        let element = slice[i];
        let next_element = slice[next];
        v.push((element, next_element));
        i += 1;
    }
    v
}

} // verus!
