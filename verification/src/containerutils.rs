//! Borrowing two elements of one slice at a time.

use vstd::prelude::*;

verus! {

/// Mutable access to the elements at two different positions of `container`.
///
/// Gives `None` when either position is past the end or when both are the same.
pub fn extract_two_elements<T>(container: &mut [T], index0: usize, index1: usize) -> (r: Option<
    (&mut T, &mut T),
>)
    ensures
        r is Some <==> index0 < old(container)@.len() && index1 < old(container)@.len() && index0
            != index1,
        r is None ==> final(container)@ == old(container)@,
        r matches Some((e0, e1)) ==> {
            &&& *e0 == old(container)@[index0 as int]
            &&& *e1 == old(container)@[index1 as int]
            &&& final(container)@ == old(container)@.update(index0 as int, *final(e0)).update(
                index1 as int,
                *final(e1),
            )
        },
{
    let container_len = container.len();
    if index0 < container_len && index1 < container_len {
        if index0 < index1 {
            let (low, high) = container.split_at_mut(index1);
            let (_, rest) = low.split_at_mut(index0);
            let e0 = rest.first_mut().unwrap();
            let e1 = high.first_mut().unwrap();
            Some((e0, e1))
        } else if index1 < index0 {
            let (low, high) = container.split_at_mut(index0);
            let (_, rest) = low.split_at_mut(index1);
            let e1 = rest.first_mut().unwrap();
            let e0 = high.first_mut().unwrap();
            Some((e0, e1))
        } else {
            None
        }
    } else {
        None
    }
}

} // verus!
