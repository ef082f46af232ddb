//! The size and alignment of one stored element.
use vstd::arithmetic::power2::is_pow2;
use vstd::prelude::*;

verus! {

/// The largest byte size a layout with alignment `align` may have: rounding
/// the size up to a multiple of `align` must stay within `isize::MAX`.
pub open spec fn max_size_for_align(align: int) -> int {
    isize::MAX - (align - 1)
}

/// A size and an alignment, both in bytes, describing one element.
///
/// The alignment is a power of two, and the size rounded up to the alignment
/// fits in `isize`.
#[derive(Clone, Copy)]
pub struct ItemLayout {
    pub(crate) size: usize,
    pub(crate) align: usize,
}

impl ItemLayout {
    #[verifier::type_invariant]
    pub(crate) open spec fn well_formed(self) -> bool {
        Self::valid(self.spec_size() as int, self.spec_align() as int)
    }

    pub closed spec fn spec_size(&self) -> usize {
        self.size
    }

    pub closed spec fn spec_align(&self) -> usize {
        self.align
    }

    /// A layout is valid when its alignment is a power of two and its size,
    /// rounded up to that alignment, does not exceed `isize::MAX`.
    pub open spec fn valid(size: int, align: int) -> bool {
        is_pow2(align) && size <= max_size_for_align(align)
    }

    /// The size of one element once padded to a multiple of the alignment.
    pub open spec fn padded_size(self) -> nat {
        let a = self.spec_align() as int;
        ((self.spec_size() as int + a - 1) / a * a) as nat
    }

    /// Whether `n` elements, each padded to the alignment, form a valid array
    /// layout: the count fits in `usize` and the total byte size in `isize`.
    pub open spec fn array_fits(self, n: int) -> bool {
        &&& 0 <= n <= usize::MAX
        &&& n * self.padded_size() <= max_size_for_align(self.spec_align() as int)
    }

    /// Builds a layout from a size and an alignment, or returns `None` when
    /// the pair is not valid.
    pub fn from_size_align(size: usize, align: usize) -> (r: Option<ItemLayout>)
        ensures
            r is Some <==> Self::valid(size as int, align as int),
            r matches Some(l) ==> l.spec_size() == size && l.spec_align() == align,
    {
        proof {
            reveal(is_pow2);
        }
        if align == 0 || !is_power_of_two(align) {
            return None;
        }
        if align - 1 > isize::MAX as usize || size > isize::MAX as usize - (align - 1) {
            return None;
        }
        Some(ItemLayout { size, align })
    }

    #[verifier::when_used_as_spec(spec_size)]
    pub fn size(&self) -> (r: usize)
        ensures
            r == self.spec_size(),
    {
        self.size
    }

    #[verifier::when_used_as_spec(spec_align)]
    pub fn align(&self) -> (r: usize)
        ensures
            r == self.spec_align(),
    {
        self.align
    }
}

/// Decides whether `n` is a power of two by halving it while it is even.
fn is_power_of_two(n: usize) -> (r: bool)
    ensures
        r == is_pow2(n as int),
{
    proof {
        reveal(is_pow2);
    }
    if n == 0 {
        return false;
    }
    let mut m: usize = n;
    while m % 2 == 0
        invariant
            m > 0,
            is_pow2(n as int) == is_pow2(m as int),
        decreases m,
    {
        proof {
            reveal(is_pow2);
        }
        m = m / 2;
    }
    assert(m != 1 ==> !is_pow2(m as int));
    m == 1
}

} // verus!
