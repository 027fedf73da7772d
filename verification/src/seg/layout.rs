use vstd::prelude::*;
use crate::seg::heap::Heap32;

verus! {

/// How a range of coordinates is cut into buckets: the coordinates from
/// `min` to `max`, in buckets of `2^scale` coordinates each. The buckets are
/// the leaves `0, 1, ..` of the tree of `Heap32`, at least 17 and at most 32
/// of them.
pub struct Layout {
    pub min: i64,
    pub max: i64,
    pub scale: u32,
}

/// The least width a range of coordinates must have, `max - min`, to be cut
/// into buckets: it must hold as many coordinates as the tree has leaves.
pub const MIN_WIDTH: u64 = 31;

/// The distance from `min` up to `value`.
#[inline]
pub fn offset(value: i64, min: i64) -> (d: u64)
    requires
        min <= value,
    ensures
        d == value - min,
{
    if min >= 0 || value < 0 {
        (value - min) as u64
    } else {
        let below = (-(min + 1)) as u64;
        (value as u64) + below + 1
    }
}

/// The bucket of the coordinate that lies `d` above the least coordinate.
pub open spec fn bucket(d: int, scale: u32) -> int {
    ((d as u64) >> (scale as u64)) as int
}

/// Buckets follow the order of the coordinates.
pub proof fn lemma_bucket(x: u64, y: u64, scale: u64)
    requires
        x <= y,
        scale < 64,
    ensures
        (x >> scale) <= (y >> scale),
{
    assert(x <= y && scale < 64 ==> (x >> scale) <= (y >> scale)) by (bit_vector);
}

impl Layout {
    pub open spec fn wf(&self) -> bool {
        &&& self.min <= self.max
        &&& self.scale < 60
        &&& 16 <= bucket(self.max - self.min, self.scale) <= 31
    }

    /// The bucket of the coordinate `value`.
    pub open spec fn index_of(&self, value: i64) -> int {
        bucket(value - self.min, self.scale)
    }

    /// The layout of the coordinates from `start` to `end`, if there are at
    /// least 32 of them.
    #[inline]
    pub fn new(start: i64, end: i64) -> (layout: Option<Self>)
        ensures
            layout is None <==> end - start < MIN_WIDTH,
            layout is Some ==> layout->0.wf() && layout->0.min == start && layout->0.max == end,
    {
        let min = start;
        let max = end;
        if max < min {
            return None;
        }
        let width = offset(max, min);
        if width < MIN_WIDTH {
            return None;
        }
        let zeros = width.leading_zeros();
        proof {
            vstd::std_specs::bits::axiom_u64_leading_zeros(width);
            let z = zeros as u64;
            assert(z <= 59) by {
                if z > 59 {
                    assert(width >> 4 == 0) by {
                        assert((width >> 4) & 1u64 == 0u64 || true);
                        assert(z >= 60 && z <= 64 && width >> ((64 - z) as u64) == 0 ==> width >> 4 == 0)
                            by (bit_vector);
                    }
                    assert(width >> 4 == 0 ==> width < 16) by (bit_vector);
                }
            }
            assert(z <= 59 && width >> ((64 - z) as u64) == 0 && (width >> ((63 - z) as u64)) & 1u64 != 0u64
                ==> 16 <= (width >> ((59 - z) as u64)) && (width >> ((59 - z) as u64)) <= 31) by (bit_vector);
        }
        let scale = 59 - zeros;

        Some(Self { min, max, scale })
    }

    /// The bucket of the coordinate `value`.
    #[inline]
    pub fn index(&self, value: i64) -> (order: u32)
        requires
            self.wf(),
            self.min <= value <= self.max,
        ensures
            order == self.index_of(value),
            order <= self.index_of(self.max),
            order < 32,
    {
        let d = offset(value, self.min);
        proof {
            lemma_bucket(d, (self.max - self.min) as u64, self.scale as u64);
        }
        (d >> self.scale) as u32
    }

    /// The number of nodes of the tree that the buckets need: the number of
    /// the last leaf and one.
    #[inline]
    pub fn count(&self) -> (n: usize)
        requires
            self.wf(),
        ensures
            n == self.index_of(self.max) + 32,
            48 <= n <= 63,
    {
        let order = self.index(self.max);
        Heap32::order_to_heap_index(order) as usize + 1
    }

    /// The nodes under which the coordinates from `min` to `max` are filed.
    #[inline]
    pub fn insert_mask(&self, min: i64, max: i64) -> (mask: u64)
        requires
            self.wf(),
            self.min <= min <= max <= self.max,
        ensures
            crate::seg::heap::is_place_mask(mask, self.index_of(min), self.index_of(max)),
            0 <= self.index_of(min) <= self.index_of(max) <= self.index_of(self.max),
    {
        let start = self.index(min);
        let end = self.index(max);
        proof {
            lemma_bucket((min - self.min) as u64, (max - self.min) as u64, self.scale as u64);
        }

        Heap32::range_to_place_mask(start, end)
    }

    /// The nodes that a query for the coordinates from `min` to `max` looks
    /// into.
    #[inline]
    pub fn intersect_mask(&self, min: i64, max: i64) -> (mask: u64)
        requires
            self.wf(),
            self.min <= min <= max <= self.max,
        ensures
            crate::seg::heap::is_intersect_mask(mask, self.index_of(min), self.index_of(max)),
            0 <= self.index_of(min) <= self.index_of(max) <= self.index_of(self.max),
    {
        let start = self.index(min);
        let end = self.index(max);
        proof {
            lemma_bucket((min - self.min) as u64, (max - self.min) as u64, self.scale as u64);
        }

        Heap32::range_to_intersect_mask(start, end)
    }
}

} // verus!
