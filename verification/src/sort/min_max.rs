use vstd::prelude::*;
use crate::order::is_less;

verus! {

/// The least and the greatest of the items, if there is any.
pub fn min_max<T: Ord + Copy>(items: &Vec<T>) -> (found: Option<(T, T)>)
    requires
        crate::order::total_order::<T>(),
    ensures
        found is None <==> items@.len() == 0,
        found is Some ==> ({
            let pair = found->0;
            &&& items@.contains(pair.0)
            &&& items@.contains(pair.1)
            &&& forall|i: int|
                0 <= i < items@.len() ==> crate::order::key_le(pair.0, #[trigger] items@[i])
                    && crate::order::key_le(items@[i], pair.1)
        }),
{
    if items.len() == 0 {
        return None;
    }
    let first = items[0];
    let mut min = first;
    let mut max = first;
    proof {
        crate::order::lemma_order(first, first, first);
    }

    let mut k: usize = 1;
    while k < items.len()
        invariant
            crate::order::total_order::<T>(),
            1 <= k <= items@.len(),
            items@.contains(min),
            items@.contains(max),
            forall|i: int|
                0 <= i < k ==> crate::order::key_le(min, #[trigger] items@[i]) && crate::order::key_le(
                    items@[i],
                    max,
                ),
        decreases items@.len() - k,
    {
        let x = items[k];
        let ghost old_min = min;
        let ghost old_max = max;
        proof {
            crate::order::lemma_order(x, min, max);
            crate::order::lemma_order(max, x, x);
            crate::order::lemma_order(min, max, x);
            assert(crate::order::key_le(min, items@[0]) && crate::order::key_le(items@[0], max));
            crate::order::lemma_order(min, items@[0], max);
        }
        if is_less(&x, &min) {
            min = x;
        } else if is_less(&max, &x) {
            max = x;
        }
        proof {
            assert forall|i: int| 0 <= i < k + 1 implies crate::order::key_le(min, #[trigger] items@[i])
                && crate::order::key_le(items@[i], max) by {
                if i < k {
                    crate::order::lemma_order(min, old_min, items@[i]);
                    crate::order::lemma_order(items@[i], old_max, max);
                    crate::order::lemma_order(old_max, old_max, max);
                    crate::order::lemma_order(min, old_min, old_min);
                } else {
                    crate::order::lemma_order(x, x, x);
                    crate::order::lemma_order(min, old_min, x);
                    crate::order::lemma_order(x, old_max, max);
                }
            }
        }
        k += 1;
    }

    Some((min, max))
}

} // verus!
