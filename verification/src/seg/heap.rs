use vstd::prelude::*;
use crate::seg::bit::BitOp;

verus! {

/// The complete binary tree over 32 leaves, its 63 nodes numbered level by
/// level from the root, which is node 0. The children of node `i` are the
/// nodes `2 i + 1` and `2 i + 2`; leaf `o` is node `o + 31`. A set of nodes
/// is a word in which bit `i` stands for node `i`.
pub struct Heap32 {}

/// The number of nodes.
pub const NODES: u64 = 63;

/// The first of the leaves below node `i`.
pub open spec fn span_lo(i: int) -> int {
    if i < 1 {
        0
    } else if i < 3 {
        (i - 1) * 16
    } else if i < 7 {
        (i - 3) * 8
    } else if i < 15 {
        (i - 7) * 4
    } else if i < 31 {
        (i - 15) * 2
    } else {
        i - 31
    }
}

/// The last of the leaves below node `i`.
pub open spec fn span_hi(i: int) -> int {
    if i < 1 {
        31
    } else if i < 3 {
        (i - 1) * 16 + 15
    } else if i < 7 {
        (i - 3) * 8 + 7
    } else if i < 15 {
        (i - 7) * 4 + 3
    } else if i < 31 {
        (i - 15) * 2 + 1
    } else {
        i - 31
    }
}

/// The node above node `i`.
pub open spec fn up(i: int) -> int {
    (i - 1) / 2
}

/// Every leaf below node `i` lies in the range from leaf `a` to leaf `b`.
pub open spec fn covered(i: int, a: int, b: int) -> bool {
    a <= span_lo(i) && span_hi(i) <= b
}

/// Some leaf below node `i` lies in the range from leaf `a` to leaf `b`.
pub open spec fn hits(i: int, a: int, b: int) -> bool {
    span_lo(i) <= b && a <= span_hi(i)
}

/// Node `i` is one of the nodes under which the range from leaf `a` to leaf
/// `b` is filed: the range covers it and does not cover the node above it.
pub open spec fn placed(i: int, a: int, b: int) -> bool {
    covered(i, a, b) && (i == 0 || !covered(up(i), a, b))
}

/// `m` is the set of the nodes under which the range is filed.
pub open spec fn is_place_mask(m: u64, a: int, b: int) -> bool {
    forall|i: u64| i < 64 ==> (#[trigger] crate::seg::bit::bit(m, i) <==> i < NODES && placed(i as int, a, b))
}

/// `m` is the set of the nodes that lie above a leaf of the range, the
/// leaves themselves included.
pub open spec fn is_intersect_mask(m: u64, a: int, b: int) -> bool {
    forall|i: u64| i < 64 ==> (#[trigger] crate::seg::bit::bit(m, i) <==> i < NODES && hits(i as int, a, b))
}

/// Setting one bit leaves the others as they are.
pub proof fn lemma_set_bit(w: u64, b: u64, p: u64)
    requires
        b <= 1,
        p < 64,
    ensures
        forall|i: u64|
            i < 64 ==> (#[trigger] crate::seg::bit::bit(w | (b << p), i) <==> crate::seg::bit::bit(w, i) || (i
                == p && b == 1)),
{
    assert forall|i: u64| i < 64 implies (#[trigger] crate::seg::bit::bit(w | (b << p), i)
        <==> crate::seg::bit::bit(w, i) || (i == p && b == 1)) by {
        assert(b <= 1 && p < 64 && i < 64 ==> ((((w | (b << p)) >> i) & 1u64 == 1u64) <==> (((w >> i) & 1u64
            == 1u64) || (i == p && b == 1)))) by (bit_vector);
    }
}

/// One bit of a word is 0 or 1.
pub proof fn lemma_get_bit(w: u64, p: u64)
    requires
        p < 64,
    ensures
        (w >> p) & 1u64 <= 1,
        ((w >> p) & 1u64 == 1) <==> crate::seg::bit::bit(w, p),
{
    assert((w >> p) & 1u64 <= 1) by (bit_vector);
}

/// How two bits combine.
pub proof fn lemma_bits(x: u64, y: u64)
    requires
        x <= 1,
        y <= 1,
    ensures
        (x | y) <= 1,
        (x & y) <= 1,
        (x ^ y) <= 1,
        (x | y) == 1 <==> (x == 1 || y == 1),
        (x & y) == 1 <==> (x == 1 && y == 1),
        (x ^ y) == 1 <==> (x == 1) != (y == 1),
{
    assert(x <= 1 && y <= 1 ==> (x | y) <= 1 && (x & y) <= 1 && (x ^ y) <= 1 && ((x | y) == 1 <==> (x == 1
        || y == 1)) && ((x & y) == 1 <==> (x == 1 && y == 1)) && ((x ^ y) == 1 <==> (x == 1) != (y == 1)))
        by (bit_vector);
}

impl Heap32 {
    /// The set of the nodes that lie above a leaf of the range from leaf
    /// `start` to leaf `end`.
    #[inline]
    pub fn range_to_intersect_mask(start: u32, end: u32) -> (mask: u64)
        requires
            start <= end < 32,
        ensures
            is_intersect_mask(mask, start as int, end as int),
    {
        let mut w = Self::range_to_fill_mask(start, end);
        let ghost a = start as int;
        let ghost b = end as int;

        let mut shift: u64 = 32;
        let mut level: u32 = 0;
        let ghost mut first: int = 31;
        while level < 6
            invariant
                level <= 6,
                a <= b < 32,
                0 <= a,
                (level == 0 && shift == 32 && first == 31) || (level == 1 && shift == 16 && first == 15) || (
                level == 2 && shift == 8 && first == 7) || (level == 3 && shift == 4 && first == 3) || (level
                    == 4 && shift == 2 && first == 1) || (level == 5 && shift == 1 && first == 0) || (level
                    == 6 && shift == 0 && first == 0),
                forall|i: u64|
                    i < 64 ==> (#[trigger] crate::seg::bit::bit(w, i) <==> first <= i < NODES && hits(
                        i as int,
                        a,
                        b,
                    )),
            decreases 6 - level,
        {
            let mut lt = shift - 1;
            shift = shift >> 1;
            assert(shift == (first + 1) / 2) by {
                let s = (first + 1) as u64;
                assert(s <= 32 ==> (s >> 1) == s / 2) by (bit_vector);
            }
            let ghost next = if first == 0 {
                0int
            } else {
                (first - 1) / 2
            };
            let mut k: u64 = 0;
            while k < shift
                invariant
                    k <= shift,
                    a <= b < 32,
                    0 <= a,
                    shift == (first + 1) / 2,
                    first == 31 || first == 15 || first == 7 || first == 3 || first == 1 || first == 0,
                    next == if first == 0 {
                        0int
                    } else {
                        (first - 1) / 2
                    },
                    lt == first + 2 * k,
                    forall|i: u64|
                        i < 64 ==> (#[trigger] crate::seg::bit::bit(w, i) <==> (first <= i < NODES || next <= i
                            < next + k) && hits(i as int, a, b)),
                decreases shift - k,
            {
                let rt = lt + 1;
                let pt = lt >> 1;
                assert(pt == next + k) by {
                    assert(lt < 64 ==> (lt >> 1) == lt / 2) by (bit_vector);
                }

                let lt_bit = (w >> lt) & 1;
                let rt_bit = (w >> rt) & 1;
                let pt_bit = lt_bit | rt_bit;
                proof {
                    lemma_get_bit(w, lt);
                    lemma_get_bit(w, rt);
                    lemma_bits(lt_bit, rt_bit);
                    lemma_set_bit(w, pt_bit, pt);
                }

                w = w | (pt_bit << pt);

                lt += 2;
                k += 1;
            }
            proof {
                first = next;
            }
            level += 1;
        }

        w
    }

    /// The set of the nodes under which the range from leaf `start` to leaf
    /// `end` is filed: the fewest nodes whose leaves are the leaves of the
    /// range.
    #[inline]
    pub fn range_to_place_mask(start: u32, end: u32) -> (mask: u64)
        requires
            start <= end < 32,
        ensures
            is_place_mask(mask, start as int, end as int),
    {
        let ghost a = start as int;
        let ghost b = end as int;
        if end - start == 31 {
            proof {
                assert forall|i: u64| i < 64 implies (#[trigger] crate::seg::bit::bit(1u64, i) <==> i < NODES
                    && placed(i as int, a, b)) by {
                    assert(i < 64 ==> (((1u64 >> i) & 1u64 == 1u64) <==> i == 0)) by (bit_vector);
                }
            }
            return 1
        }
        let mut w = Self::range_to_fill_mask(start, end);

        let mut m: u64 = 0;
        let mut shift: u64 = 32;
        let mut level: u32 = 0;
        let ghost mut first: int = 31;
        proof {
            assert forall|i: u64| i < 64 implies !(#[trigger] crate::seg::bit::bit(0u64, i)) by {
                assert(i < 64 ==> ((0u64 >> i) & 1u64) == 0u64) by (bit_vector);
            }
        }
        while level < 6
            invariant
                level <= 6,
                0 <= a <= b < 32,
                b - a < 31,
                (level == 0 && shift == 32 && first == 31) || (level == 1 && shift == 16 && first == 15) || (
                level == 2 && shift == 8 && first == 7) || (level == 3 && shift == 4 && first == 3) || (level
                    == 4 && shift == 2 && first == 1) || (level == 5 && shift == 1 && first == 0) || (level
                    == 6 && shift == 0 && first == 0),
                forall|i: u64|
                    i < 64 ==> (#[trigger] crate::seg::bit::bit(w, i) <==> first <= i < NODES && covered(
                        i as int,
                        a,
                        b,
                    )),
                forall|i: u64|
                    i < 64 ==> (#[trigger] crate::seg::bit::bit(m, i) <==> 2 * first + 1 <= i < NODES
                        && placed(i as int, a, b)),
            decreases 6 - level,
        {
            let mut lt = shift - 1;
            shift = shift >> 1;
            assert(shift == (first + 1) / 2) by {
                let s = (first + 1) as u64;
                assert(s <= 32 ==> (s >> 1) == s / 2) by (bit_vector);
            }
            let ghost next = if first == 0 {
                0int
            } else {
                (first - 1) / 2
            };
            let ghost deep = 2 * first + 1;
            let mut k: u64 = 0;

            while k < shift
                invariant
                    k <= shift,
                    0 <= a <= b < 32,
                    b - a < 31,
                    shift == (first + 1) / 2,
                    first == 31 || first == 15 || first == 7 || first == 3 || first == 1 || first == 0,
                    deep == 2 * first + 1,
                    next == if first == 0 {
                        0int
                    } else {
                        (first - 1) / 2
                    },
                    lt == first + 2 * k,
                    forall|i: u64|
                        i < 64 ==> (#[trigger] crate::seg::bit::bit(w, i) <==> (first <= i < NODES || next <= i
                            < next + k) && covered(i as int, a, b)),
                    forall|i: u64|
                        i < 64 ==> (#[trigger] crate::seg::bit::bit(m, i) <==> (deep <= i < NODES || first <= i
                            < first + 2 * k) && placed(i as int, a, b)),
                decreases shift - k,
            {
                let rt = lt + 1;
                let pt = lt >> 1;
                assert(pt == next + k) by {
                    assert(lt < 64 ==> (lt >> 1) == lt / 2) by (bit_vector);
                }

                let lt_bit = (w >> lt) & 1;
                let rt_bit = (w >> rt) & 1;
                let pt_bit = lt_bit & rt_bit;
                proof {
                    lemma_get_bit(w, lt);
                    lemma_get_bit(w, rt);
                    lemma_bits(lt_bit, rt_bit);
                    lemma_bits(lt_bit, pt_bit);
                    lemma_bits(rt_bit, pt_bit);
                    lemma_set_bit(w, pt_bit, pt);
                    lemma_set_bit(m, lt_bit ^ pt_bit, lt);
                    lemma_set_bit(m | ((lt_bit ^ pt_bit) << lt), rt_bit ^ pt_bit, rt);
                    assert(up(lt as int) == pt && up(rt as int) == pt);
                }

                w = w | (pt_bit << pt);
                m = m | ((lt_bit ^ pt_bit) << lt);
                m = m | ((rt_bit ^ pt_bit) << rt);

                lt += 2;
                k += 1;
            }
            proof {
                first = next;
            }
            level += 1;
        }

        m
    }

    /// The set of the leaves of the range from leaf `start` to leaf `end`.
    #[inline]
    pub fn range_to_fill_mask(start: u32, end: u32) -> (mask: u64)
        requires
            start <= end < 32,
        ensures
            forall|i: u64| i < 64 ==> (#[trigger] crate::seg::bit::bit(mask, i) <==> start + 31 <= i <= end + 31),
    {
        let i0 = Self::order_to_heap_index(start);
        let i1 = Self::order_to_heap_index(end);
        <u64 as BitOp>::fill(i0, i1)
    }

    /// The number of the node that is leaf `order`.
    #[inline]
    pub fn order_to_heap_index(order: u32) -> (index: u32)
        requires
            order < 32,
        ensures
            index == order + 31,
    {
        order + 31
    }
}

/// Bit `p` is the lowest bit of `w` that is set.
pub open spec fn lowest(w: u64, p: u64) -> bool {
    &&& p < 64
    &&& crate::seg::bit::bit(w, p)
    &&& forall|j: u64| j < p ==> !#[trigger] crate::seg::bit::bit(w, j)
}

/// The leaves below a node lie below the node above it.
pub proof fn lemma_up(i: int)
    requires
        1 <= i < 63,
    ensures
        0 <= up(i) < 31,
        up(i) < i,
        span_lo(up(i)) <= span_lo(i),
        span_hi(i) <= span_hi(up(i)),
        0 <= span_lo(i) <= span_hi(i) <= 31,
{
}

/// A word is zero if and only if none of its bits is set; its lowest set bit
/// is the number of its trailing zeros.
pub proof fn lemma_lowest(w: u64)
    ensures
        w != 0 <==> exists|i: u64| i < 64 && #[trigger] crate::seg::bit::bit(w, i),
        w != 0 ==> lowest(w, vstd::std_specs::bits::u64_trailing_zeros(w) as u64),
        w == 0 ==> vstd::std_specs::bits::u64_trailing_zeros(w) == 64,
{
    vstd::std_specs::bits::axiom_u64_trailing_zeros(w);
    let t = vstd::std_specs::bits::u64_trailing_zeros(w);
    if w != 0 {
        assert(crate::seg::bit::bit(w, t as u64));
        assert forall|j: u64| j < t as u64 implies !#[trigger] crate::seg::bit::bit(w, j) by {
            assert((w >> j) & 1u64 == 0u64);
        }
    } else {
        assert forall|i: u64| i < 64 implies !#[trigger] crate::seg::bit::bit(w, i) by {
            assert(i < 64 ==> ((0u64 >> i) & 1u64) == 0u64) by (bit_vector);
        }
    }
}

/// The bits of an intersection.
pub proof fn lemma_and(x: u64, y: u64)
    ensures
        forall|i: u64|
            i < 64 ==> (#[trigger] crate::seg::bit::bit(x & y, i) <==> crate::seg::bit::bit(x, i)
                && crate::seg::bit::bit(y, i)),
{
    assert forall|i: u64| i < 64 implies (#[trigger] crate::seg::bit::bit(x & y, i) <==> crate::seg::bit::bit(
        x,
        i,
    ) && crate::seg::bit::bit(y, i)) by {
        assert(i < 64 ==> ((((x & y) >> i) & 1u64 == 1u64) <==> (((x >> i) & 1u64 == 1u64) && ((y >> i) & 1u64
            == 1u64)))) by (bit_vector);
    }
}

/// The word whose set bits are the numbers below `n` of which `f` holds.
pub open spec fn word_of(f: spec_fn(int) -> bool, n: nat) -> u64
    decreases n,
{
    if n == 0 {
        0
    } else {
        let w = word_of(f, (n - 1) as nat);
        if f(n - 1) {
            w | (1u64 << ((n - 1) as u64))
        } else {
            w
        }
    }
}

/// The bits of `word_of`.
pub proof fn lemma_word_of(f: spec_fn(int) -> bool, n: nat)
    requires
        n <= 64,
    ensures
        forall|i: u64| i < 64 ==> (#[trigger] crate::seg::bit::bit(word_of(f, n), i) <==> i < n && f(i as int)),
    decreases n,
{
    if n == 0 {
        assert forall|i: u64| i < 64 implies !(#[trigger] crate::seg::bit::bit(0u64, i)) by {
            assert(i < 64 ==> (0u64 >> i) & 1u64 != 1u64) by (bit_vector);
        }
    } else {
        let w = word_of(f, (n - 1) as nat);
        lemma_word_of(f, (n - 1) as nat);
        if f(n - 1) {
            lemma_set_bit(w, 1, (n - 1) as u64);
        }
    }
}

/// Every range of leaves has the set of nodes under which it is filed.
pub proof fn lemma_place_mask(a: int, b: int) -> (m: u64)
    ensures
        is_place_mask(m, a, b),
{
    let f = |i: int| i < NODES && placed(i, a, b);
    lemma_word_of(f, 64);
    word_of(f, 64)
}

/// Every range of leaves has the set of nodes that a query for it looks
/// into.
pub proof fn lemma_intersect_mask(a: int, b: int) -> (m: u64)
    ensures
        is_intersect_mask(m, a, b),
{
    let f = |i: int| i < NODES && hits(i, a, b);
    lemma_word_of(f, 64);
    word_of(f, 64)
}

/// A range of leaves is filed under a node above each of its leaves.
pub proof fn lemma_tiled(a: int, b: int, x: int) -> (i: int)
    requires
        0 <= a <= x <= b < 32,
    ensures
        0 <= i < 63,
        placed(i, a, b),
        span_lo(i) <= x <= span_hi(i),
{
    let n0 = x + 31;
    lemma_up(n0);
    let n1 = up(n0);
    lemma_up(n1);
    let n2 = up(n1);
    lemma_up(n2);
    let n3 = up(n2);
    lemma_up(n3);
    let n4 = up(n3);
    lemma_up(n4);
    let n5 = up(n4);
    assert(n5 == 0);
    if covered(n5, a, b) {
        n5
    } else if covered(n4, a, b) {
        n4
    } else if covered(n3, a, b) {
        n3
    } else if covered(n2, a, b) {
        n2
    } else if covered(n1, a, b) {
        n1
    } else {
        n0
    }
}

/// The nodes under which a range is filed and the nodes that a query looks
/// into have a node in common if and only if the two ranges have a leaf in
/// common.
pub proof fn lemma_masks_meet(m: u64, q: u64, a: int, b: int, c: int, d: int)
    requires
        0 <= a <= b < 32,
        0 <= c <= d < 32,
        is_place_mask(m, a, b),
        is_intersect_mask(q, c, d),
    ensures
        (m & q) != 0 <==> (a <= d && c <= b),
{
    lemma_and(m, q);
    lemma_lowest(m & q);
    if (m & q) != 0 {
        let i = choose|i: u64| i < 64 && #[trigger] crate::seg::bit::bit(m & q, i);
        assert(crate::seg::bit::bit(m, i) && crate::seg::bit::bit(q, i));
        assert(placed(i as int, a, b) && hits(i as int, c, d));
        if i >= 1 {
            lemma_up(i as int);
        }
    }
    if a <= d && c <= b {
        let x = if a <= c {
            c
        } else {
            a
        };
        let i = lemma_tiled(a, b, x);
        let j = i as u64;
        assert(crate::seg::bit::bit(m, j));
        assert(hits(i, c, d));
        assert(crate::seg::bit::bit(q, j));
        assert(crate::seg::bit::bit(m & q, j));
    }
}

/// The set bits of a word, handed out from the lowest up.
pub struct BitIter {
    pub value: u64,
}

impl BitIter {
    #[inline]
    pub fn new(value: u64) -> (iter: Self)
        ensures
            iter.value == value,
    {
        Self { value }
    }

    /// The lowest bit that is still set, which is cleared.
    #[inline]
    pub fn next(&mut self) -> (item: Option<usize>)
        ensures
            match item {
                Some(pos) => {
                    &&& lowest(old(self).value, pos as u64)
                    &&& final(self).value < old(self).value
                    &&& forall|i: u64|
                        i < 64 ==> (#[trigger] crate::seg::bit::bit(final(self).value, i)
                            <==> crate::seg::bit::bit(old(self).value, i) && i != pos)
                },
                None => old(self).value == 0 && final(self).value == 0,
            },
    {
        if self.value == 0 {
            return None;
        }
        let pos = self.value.trailing_zeros();
        proof {
            lemma_lowest(self.value);
            let v = self.value;
            let p = pos as u64;
            assert(v & ((v - 1) as u64) < v) by (bit_vector)
                requires
                    v != 0,
            ;
            assert forall|i: u64| i < 64 implies (#[trigger] crate::seg::bit::bit(v & ((v - 1) as u64), i)
                <==> crate::seg::bit::bit(v, i) && i != p) by {
                if i < p {
                    assert(!crate::seg::bit::bit(v, i));
                    assert(i < 64 && (v >> i) & 1u64 != 1u64 && v != 0 ==> ((v & ((v - 1) as u64)) >> i) & 1u64
                        != 1u64) by (bit_vector);
                } else {
                    vstd::std_specs::bits::axiom_u64_trailing_zeros(v);
                    assert(v << ((64 - p) as u64) == 0);
                    assert(p < 64 && i < 64 && i >= p && v != 0 && (v >> p) & 1u64 == 1u64 && v << ((64
                        - p) as u64) == 0 ==> ((((v & ((v - 1) as u64)) >> i) & 1u64 == 1u64) <==> ((v >> i)
                        & 1u64 == 1u64 && i != p))) by (bit_vector);
                }
            }
        }
        self.value = self.value & (self.value - 1);
        Some(pos as usize)
    }
}

} // verus!
