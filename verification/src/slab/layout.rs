//! The size and alignment of a memory request.
use vstd::prelude::*;
use vstd::arithmetic::power2::is_pow2;
use vstd::layout::valid_layout;

verus! {

/// The size and alignment that a caller asks the allocator for.
///
/// The alignment is always a power of two, and the size, once rounded up to
/// the alignment, never exceeds `isize::MAX`.
#[derive(Clone, Copy, Debug, PartialEq, Eq)]
pub struct Layout {
    size: usize,
    align: usize,
}

/// The error returned when a size and an alignment do not form a layout.
#[derive(Clone, Copy, Debug, PartialEq, Eq)]
pub struct LayoutError;

impl View for Layout {
    /// The pair (size, align).
    type V = (usize, usize);

    closed spec fn view(&self) -> (usize, usize) {
        (self.size, self.align)
    }
}

/// Decides whether `a` is a power of two, halving it while it stays even.
fn is_power_of_two(a: usize) -> (r: bool)
    ensures
        r == is_pow2(a as int),
        r ==> a > 0,
{
    reveal(is_pow2);
    if a == 0 {
        return false;
    }
    let mut x = a;
    while x > 1 && x % 2 == 0
        invariant
            x > 0,
            is_pow2(a as int) == is_pow2(x as int),
        decreases x,
    {
        proof {
            reveal(is_pow2);
        }
        x = x / 2;
    }
    x == 1
}

impl Layout {
    #[verifier::type_invariant]
    spec fn inv(self) -> bool {
        valid_layout(self.size, self.align)
    }

    /// Builds the layout of `size` bytes aligned to `align` bytes.
    ///
    /// Fails when `align` is not a power of two, or when `size` rounded up to
    /// `align` would exceed `isize::MAX`.
    pub fn from_size_align(size: usize, align: usize) -> (r: Result<Layout, LayoutError>)
        ensures
            r is Ok <==> valid_layout(size, align),
            r matches Ok(l) ==> l@ == (size, align),
    {
        if !is_power_of_two(align) {
            return Err(LayoutError);
        }
        let max: usize = isize::MAX as usize;
        assert(max % align <= max) by (nonlinear_arith)
            requires
                align > 0,
        ;
        if size > max - max % align {
            return Err(LayoutError);
        }
        Ok(Layout { size, align })
    }

    /// The requested size in bytes.
    pub fn size(&self) -> (r: usize)
        ensures
            r == self@.0,
            valid_layout(self@.0, self@.1),
    {
        proof {
            use_type_invariant(self);
        }
        self.size
    }

    /// The requested alignment in bytes.
    pub fn align(&self) -> (r: usize)
        ensures
            r == self@.1,
            valid_layout(self@.0, self@.1),
    {
        proof {
            use_type_invariant(self);
        }
        self.align
    }
}

} // verus!
