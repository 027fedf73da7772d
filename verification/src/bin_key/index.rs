use vstd::prelude::*;
use core::ops::Range;

verus! {

/// A key whose distance from another key can be measured.
pub trait BinLayoutOp: Sized {
    /// The key as a number.
    spec fn number(self) -> int;

    /// The distance from `other` up to `self`, where `other` is not above
    /// `self` and the distance fits.
    fn offset(self, other: Self) -> (d: usize)
        ensures
            other.number() <= self.number() && self.number() - other.number() <= usize::MAX ==> d
                == self.number() - other.number(),
    ;
}

/// The distance from `low` up to `high`, or what is left of it in 64 bits
/// where `low` is above `high`.
#[inline(always)]
pub fn distance(high: i64, low: i64) -> (d: u64)
    ensures
        low <= high ==> d == high - low,
{
    if low <= high {
        if low >= 0 || high < 0 {
            (high - low) as u64
        } else {
            let below = (-(low + 1)) as u64;
            (high as u64) + below + 1
        }
    } else {
        let back = if high >= 0 || low < 0 {
            (low - high) as u64
        } else {
            let below = (-(high + 1)) as u64;
            (low as u64) + below + 1
        };
        u64::MAX - back + 1
    }
}

/// The low bits of `d` that fit in `usize`.
#[inline(always)]
pub fn low_bits(d: u64) -> (r: usize)
    ensures
        d <= usize::MAX ==> r == d,
{
    #[verifier::truncate]
    (d as usize)
}

impl BinLayoutOp for i64 {
    open spec fn number(self) -> int {
        self as int
    }

    #[inline(always)]
    fn offset(self, other: Self) -> (d: usize) {
        low_bits(distance(self, other))
    }
}

impl BinLayoutOp for i32 {
    open spec fn number(self) -> int {
        self as int
    }

    #[inline(always)]
    fn offset(self, other: Self) -> (d: usize) {
        low_bits(distance(self as i64, other as i64))
    }
}

impl BinLayoutOp for usize {
    open spec fn number(self) -> int {
        self as int
    }

    #[inline(always)]
    fn offset(self, other: Self) -> (d: usize) {
        self.wrapping_sub(other)
    }
}

/// How keys are spread over bins: the keys from `min_key` to `max_key`, in
/// bins of `2^power` keys each.
pub struct BinLayout<T> {
    pub min_key: T,
    pub max_key: T,
    pub power: usize,
}

/// The most bins a layout has.
pub const MAX_BINS: usize = 16384;

/// The number of binary digits of `value`.
pub open spec fn digits(value: usize) -> int {
    64 - vstd::std_specs::bits::u64_leading_zeros(value as u64)
}

/// The most bins that are made for `items` items with `keys` keys: as many
/// as there are keys, half as many as there are items, and `MAX_BINS`,
/// whichever is least.
pub open spec fn most_bins(keys: int, items: usize) -> int {
    let half = (items / 2) as int;
    let most = if keys < half {
        keys
    } else {
        half
    };
    if most < MAX_BINS {
        most
    } else {
        MAX_BINS as int
    }
}

/// The power of a layout for `items` items with `keys` keys: a bin takes
/// `2^power` keys, which is more than the keys that fall to each of
/// `most_bins` bins.
pub open spec fn power_for(keys: int, items: usize) -> int {
    digits((keys / most_bins(keys, items)) as usize)
}

/// The number of binary digits of `value`: 0 for 0, and one more than the
/// whole part of the binary logarithm otherwise.
#[inline(always)]
pub fn log2(value: usize) -> (n: usize)
    ensures
        n == digits(value),
        n <= 64,
        value <= usize::MAX / 2 ==> n < usize::BITS,
{
    let zeros = (value as u64).leading_zeros();
    proof {
        let wide = value as u64;
        vstd::std_specs::bits::axiom_u64_leading_zeros(wide);
        let z = zeros as u64;
        if value <= usize::MAX / 2 && z < 64 {
            let top = (63 - z) as u64;
            assert((wide >> top) & 1u64 != 0u64);
            assert(top < 64 && (wide >> top) & 1u64 != 0u64 && wide <= 0x7fff_ffffu64 ==> top < 31) by (bit_vector);
            assert(top < 64 && (wide >> top) & 1u64 != 0u64 && wide <= 0x7fff_ffff_ffff_ffffu64 ==> top < 63)
                by (bit_vector);
        }
    }
    (64 - zeros) as usize
}

impl<T> BinLayout<T> where T: Copy + BinLayoutOp + PartialOrd {
    /// The layout can be used: a shift by `power` is defined, and the keys
    /// are in order.
    pub open spec fn wf(&self) -> bool {
        &&& self.power < usize::BITS
        &&& self.min_key.number() <= self.max_key.number()
        &&& self.max_key.number() - self.min_key.number() < usize::MAX
    }

    /// The bin of the key `value`.
    pub open spec fn index_of(&self, value: T) -> int {
        (((value.number() - self.min_key.number()) as usize) >> self.power) as int
    }

    /// The bins follow the order of the keys.
    pub proof fn lemma_index(&self, value: T)
        requires
            self.wf(),
            self.min_key.number() <= value.number() <= self.max_key.number(),
        ensures
            0 <= self.index_of(value) <= self.index_of(self.max_key),
    {
        let x = (value.number() - self.min_key.number()) as usize;
        let y = (self.max_key.number() - self.min_key.number()) as usize;
        let p = self.power;
        assert(x <= y && p < usize::BITS ==> (x >> p) <= (y >> p)) by (bit_vector);
    }

    /// The bin of the key `value`.
    #[inline(always)]
    pub fn index(&self, value: T) -> (bin: usize)
        requires
            self.wf(),
            self.min_key.number() <= value.number() <= self.max_key.number(),
        ensures
            bin == self.index_of(value),
            bin <= self.index_of(self.max_key),
    {
        let d = value.offset(self.min_key);
        proof {
            let x = d;
            let y = (self.max_key.number() - self.min_key.number()) as usize;
            let p = self.power;
            assert(x <= y && p < usize::BITS ==> (x >> p) <= (y >> p)) by (bit_vector);
        }
        d >> self.power
    }

    /// The number of bins.
    #[inline(always)]
    pub fn count(&self) -> (n: usize)
        requires
            self.wf(),
        ensures
            n == self.index_of(self.max_key) + 1,
    {
        let last = self.index(self.max_key);
        proof {
            let y = (self.max_key.number() - self.min_key.number()) as usize;
            let p = self.power;
            assert(p < usize::BITS ==> (y >> p) <= y) by (bit_vector);
        }
        last + 1
    }

    /// The layout for `elements_count` items with keys from `range.start` to
    /// `range.end`, the last included: at most half as many bins as items,
    /// at most as many as keys, and at most `MAX_BINS`. No layout is made
    /// for less than two bins.
    #[inline(always)]
    pub fn new(range: Range<T>, elements_count: usize) -> (layout: Option<BinLayout<T>>)
        requires
            range.start.number() <= range.end.number(),
            range.end.number() - range.start.number() < usize::MAX,
        ensures
            layout is None <==> most_bins(range.end.number() - range.start.number() + 1, elements_count) <= 1,
            layout is Some ==> {
                &&& layout->0.wf()
                &&& layout->0.min_key == range.start
                &&& layout->0.max_key == range.end
                &&& layout->0.power == power_for(range.end.number() - range.start.number() + 1, elements_count)
            },
    {
        let delta = range.end.offset(range.start) + 1;
        let half = elements_count >> 1;
        proof {
            let e = elements_count;
            assert((e >> 1) == e / 2) by (bit_vector);
        }
        let most = if delta < half {
            delta
        } else {
            half
        };
        let max_possible_bin_count = if most < MAX_BINS {
            most
        } else {
            MAX_BINS
        };
        if max_possible_bin_count <= 1 {
            return None;
        }
        let scale = delta / max_possible_bin_count;
        proof {
            let d = delta as int;
            let m = max_possible_bin_count as int;
            assert(d / m <= d / 2) by (nonlinear_arith)
                requires
                    m >= 2,
                    d >= 0,
            ;
        }
        let scale_power = log2(scale);
        Some(Self { min_key: range.start, max_key: range.end, power: scale_power })
    }
}

/// An item that is sorted by a key of type `T`.
pub trait BinKey<T: BinLayoutOp + Copy + PartialOrd> {
    /// The key of the item.
    spec fn key_of(&self) -> T;

    fn bin_key(&self) -> (key: T)
        ensures
            key == self.key_of(),
    ;

    /// The bin of the item.
    fn bin_index(&self, layout: &BinLayout<T>) -> (bin: usize)
        requires
            layout.wf(),
            layout.min_key.number() <= self.key_of().number() <= layout.max_key.number(),
        ensures
            bin == layout.index_of(self.key_of()),
            bin <= layout.index_of(layout.max_key),
    ;
}

impl BinKey<i32> for i32 {
    open spec fn key_of(&self) -> i32 {
        *self
    }

    #[inline]
    fn bin_key(&self) -> (key: i32) {
        *self
    }

    #[inline]
    fn bin_index(&self, layout: &BinLayout<i32>) -> (bin: usize) {
        layout.index(*self)
    }
}

} // verus!
