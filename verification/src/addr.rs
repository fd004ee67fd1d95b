//! Virtual-address primitives: half-open address ranges, page-size
//! granularities and page alignment arithmetic.

use vstd::arithmetic::div_mod::{
    lemma_div_is_ordered, lemma_fundamental_div_mod, lemma_mod_bound, lemma_mod_decreases,
    lemma_mod_multiples_basic,
};
use vstd::arithmetic::mul::{lemma_mul_inequality, lemma_mul_is_commutative};
use vstd::prelude::*;

verus! {

/// A half-open interval `[start, end)` of virtual addresses.
#[derive(Clone, Copy, PartialEq, Eq, Structural, Debug)]
pub struct VirtAddrRange {
    pub start: usize,
    pub end: usize,
}

impl VirtAddrRange {
    /// A range is well formed when its bounds are ordered.
    pub open spec fn wf(self) -> bool {
        self.start <= self.end
    }

    /// The number of addresses in the range.
    pub open spec fn size_spec(self) -> int {
        self.end - self.start
    }

    pub open spec fn contains_spec(self, addr: usize) -> bool {
        self.start <= addr < self.end
    }

    pub open spec fn overlaps_spec(self, other: VirtAddrRange) -> bool {
        &&& self.start < self.end
        &&& self.start < other.end
        &&& other.start < self.end
        &&& other.start < other.end
    }

    /// True iff this range lies entirely inside `outer`.
    pub open spec fn within(self, outer: VirtAddrRange) -> bool {
        outer.start <= self.start && self.end <= outer.end
    }

    /// The start of the intersection of the two ranges: the larger start.
    pub open spec fn inter_start(self, other: VirtAddrRange) -> usize {
        if self.start >= other.start {
            self.start
        } else {
            other.start
        }
    }

    /// The end of the intersection of the two ranges: the smaller end.
    pub open spec fn inter_end(self, other: VirtAddrRange) -> usize {
        if self.end <= other.end {
            self.end
        } else {
            other.end
        }
    }

    /// The two ranges overlap exactly when they share at least one address.
    pub proof fn lemma_overlaps_iff_shared_addr(self, other: VirtAddrRange)
        ensures
            self.overlaps_spec(other) <==> exists|a: usize|
                self.contains_spec(a) && other.contains_spec(a),
    {
        if self.overlaps_spec(other) {
            let witness: usize = if self.start >= other.start {
                self.start
            } else {
                other.start
            };
            assert(self.contains_spec(witness) && other.contains_spec(witness));
        }
    }

    pub fn new(start: usize, end: usize) -> (r: VirtAddrRange)
        requires
            start <= end,
        ensures
            r == (VirtAddrRange { start, end }),
    {
        VirtAddrRange { start, end }
    }

    /// The range `[start, start + size)`.
    pub fn from_start_size(start: usize, size: usize) -> (r: VirtAddrRange)
        requires
            start + size <= usize::MAX,
        ensures
            r.start == start,
            r.end == start + size,
    {
        VirtAddrRange { start, end: start + size }
    }

    /// True iff `addr` lies in this range.
    pub fn contains(&self, addr: usize) -> (r: bool)
        ensures
            r == self.contains_spec(addr),
    {
        self.start <= addr && addr < self.end
    }

    /// True iff this range and `other` share at least one address.
    pub fn overlaps(&self, other: &VirtAddrRange) -> (r: bool)
        ensures
            r == self.overlaps_spec(*other),
    {
        self.start < self.end && self.start < other.end && other.start < self.end
            && other.start < other.end
    }
}

/// The page-size granularities a mapping may use.
#[derive(Clone, Copy, PartialEq, Eq, Structural, Debug)]
pub enum PageSize {
    /// 4 KiB pages.
    Size4K,
    /// 2 MiB pages.
    Size2M,
    /// 1 GiB pages.
    Size1G,
}

impl PageSize {
    pub open spec fn size_spec(self) -> usize {
        match self {
            PageSize::Size4K => 0x1000,
            PageSize::Size2M => 0x20_0000,
            PageSize::Size1G => 0x4000_0000,
        }
    }

    /// The page size in bytes.
    #[verifier::when_used_as_spec(size_spec)]
    pub fn size(self) -> (r: usize)
        ensures
            r == self.size_spec(),
    {
        match self {
            PageSize::Size4K => 0x1000,
            PageSize::Size2M => 0x20_0000,
            PageSize::Size1G => 0x4000_0000,
        }
    }
}

/// `addr` rounded down to a multiple of `align`.
pub open spec fn align_down_spec(addr: usize, align: usize) -> int
    recommends
        align > 0,
{
    addr - (addr as int) % (align as int)
}

/// Rounds `addr` down to the next multiple of `align`.
pub fn align_down(addr: usize, align: usize) -> (r: usize)
    requires
        align > 0,
    ensures
        r == align_down_spec(addr, align),
        r <= addr,
        r % align == 0,
        addr < r + align,
{
    proof {
        lemma_mod_decreases(addr as nat, align as nat);
        lemma_align_down_properties(addr, align);
    }
    addr - addr % align
}

/// `align_down_spec` yields an aligned address no further than one page
/// below `addr`, and is the identity on aligned addresses.
pub proof fn lemma_align_down_properties(addr: usize, align: usize)
    requires
        align > 0,
    ensures
        align_down_spec(addr, align) <= addr,
        addr < align_down_spec(addr, align) + align,
        align_down_spec(addr, align) % (align as int) == 0,
        addr % align == 0 ==> align_down_spec(addr, align) == addr,
{
    lemma_mod_bound(addr as int, align as int);
    lemma_fundamental_div_mod(addr as int, align as int);
    lemma_mod_multiples_basic(addr as int / align as int, align as int);
}

/// Rounding down is monotone.
pub proof fn lemma_align_down_mono(a: usize, b: usize, align: usize)
    requires
        align > 0,
        a <= b,
    ensures
        align_down_spec(a, align) <= align_down_spec(b, align),
{
    let ai = a as int;
    let bi = b as int;
    let d = align as int;
    lemma_fundamental_div_mod(ai, d);
    lemma_fundamental_div_mod(bi, d);
    lemma_div_is_ordered(ai, bi, d);
    lemma_mul_inequality(ai / d, bi / d, d);
    lemma_mul_is_commutative(d, ai / d);
    lemma_mul_is_commutative(d, bi / d);
}

} // verus!
