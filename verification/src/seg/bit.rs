use vstd::prelude::*;

verus! {

/// Bit `i` of `w` is set.
pub open spec fn bit(w: u64, i: u64) -> bool {
    (w >> i) & 1u64 == 1u64
}

pub trait BitOp {
    /// The word whose set bits are those from `start` up to `end`.
    fn fill(start: u32, end: u32) -> (w: u64)
        requires
            start <= end < 63,
        ensures
            forall|i: u64| i < 64 ==> (#[trigger] bit(w, i) <==> start <= i <= end),
    ;
}

impl BitOp for u64 {
    #[inline]
    fn fill(start: u32, end: u32) -> (w: u64) {
        let width = end - start + 1;
        proof {
            let n = width as u64;
            assert(1u64 <= (1u64 << n)) by (bit_vector)
                requires
                    n < 64,
            ;
        }
        let w = ((1u64 << width) - 1) << start;
        proof {
            let s = start as u64;
            let n = width as u64;
            assert forall|i: u64| i < 64 implies (#[trigger] bit(w, i) <==> start <= i <= end) by {
                assert(s + n <= 63 && n >= 1 && i < 64 ==> ((((((1u64 << n) - 1) as u64) << s) >> i) & 1u64
                    == 1u64 <==> s <= i && i < s + n)) by (bit_vector);
            }
        }
        w
    }
}

} // verus!
