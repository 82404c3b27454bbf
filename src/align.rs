//! Alignment arithmetic: padding to an alignment and array layouts.
use vstd::arithmetic::power2::is_pow2;
use vstd::layout::{align_of, size_of};
use vstd::prelude::*;

use crate::error::ArenaError;

verus! {

/// Whether `x` is a power of two (zero is not).
pub fn is_power_of_two(x: usize) -> (r: bool)
    ensures
        r == is_pow2(x as int),
{
    reveal(is_pow2);
    if x == 0 {
        return false;
    }
    let mut v: usize = x;
    while v % 2 == 0
        invariant
            v > 0,
            is_pow2(x as int) == is_pow2(v as int),
        decreases v,
    {
        proof {
            reveal(is_pow2);
            assert(is_pow2(v as int) == is_pow2((v / 2) as int));
        }
        v = v / 2;
    }
    proof {
        reveal(is_pow2);
    }
    v == 1
}

/// The smallest non-negative offset that brings `addr` to a multiple of
/// `alignment`.
pub open spec fn padding_for(addr: int, alignment: int) -> int
    recommends
        alignment > 0,
{
    (alignment - addr % alignment) % alignment
}

/// Offset from `addr` to the next multiple of `alignment`.
pub fn alignment_offset(addr: usize, alignment: usize) -> (r: usize)
    requires
        alignment > 0,
    ensures
        r == padding_for(addr as int, alignment as int),
        r < alignment,
        (addr + r) % (alignment as int) == 0,
        forall|k: int| 0 <= k < r ==> #[trigger] ((addr + k) % (alignment as int)) != 0,
{
    let r = (alignment - (addr % alignment)) % alignment;
    proof {
        lemma_padding_for(addr as int, alignment as int);
    }
    r
}

/// `padding_for` is below the alignment, reaches a multiple of it, and is the
/// least such offset.
pub proof fn lemma_padding_for(addr: int, alignment: int)
    requires
        addr >= 0,
        alignment > 0,
    ensures
        0 <= padding_for(addr, alignment) < alignment,
        (addr + padding_for(addr, alignment)) % alignment == 0,
        forall|k: int| 0 <= k < padding_for(addr, alignment) ==> #[trigger] ((addr + k) % alignment) != 0,
{
    let m = addr % alignment;
    let p = padding_for(addr, alignment);
    if m == 0 {
        assert(p == 0) by (nonlinear_arith)
            requires
                p == (alignment - m) % alignment,
                m == 0,
                alignment > 0,
        ;
    } else {
        assert(p == alignment - m) by (nonlinear_arith)
            requires
                p == (alignment - m) % alignment,
                0 < m < alignment,
        ;
        assert((addr + p) % alignment == 0) by (nonlinear_arith)
            requires
                p == alignment - m,
                m == addr % alignment,
                alignment > 0,
                addr >= 0,
        ;
        assert forall|k: int| 0 <= k < p implies #[trigger] ((addr + k) % alignment) != 0 by {
            assert((addr + k) % alignment == m + k) by (nonlinear_arith)
                requires
                    m == addr % alignment,
                    0 <= k < alignment - m,
                    alignment > 0,
                    addr >= 0,
            ;
        }
    }
}

/// The size of one array element: `size` rounded up to a multiple of `align`.
pub open spec fn padded_size(size: int, align: int) -> int {
    size + padding_for(size, align)
}

/// The size and alignment of a piece of memory. The alignment is always a
/// power of two.
#[derive(Debug, Clone, Copy)]
pub struct Layout {
    size: usize,
    align: usize,
}

impl Layout {
    #[verifier::type_invariant]
    spec fn inv(self) -> bool {
        is_pow2(self.align as int)
    }

    pub closed spec fn spec_size(&self) -> usize {
        self.size
    }

    pub closed spec fn spec_align(&self) -> usize {
        self.align
    }

    /// Size in bytes.
    #[verifier::when_used_as_spec(spec_size)]
    pub fn size(&self) -> (r: usize)
        ensures
            r == self.spec_size(),
    {
        self.size
    }

    /// Alignment in bytes, a power of two.
    #[verifier::when_used_as_spec(spec_align)]
    pub fn align(&self) -> (r: usize)
        ensures
            r == self.spec_align(),
            is_pow2(r as int),
    {
        proof {
            use_type_invariant(self);
        }
        self.align
    }

    /// A layout of `size` bytes aligned to `align`; refused when `align` is not
    /// a power of two.
    pub fn from_size_align(size: usize, align: usize) -> (r: Result<Layout, ArenaError>)
        ensures
            match r {
                Ok(l) => is_pow2(align as int) && l.size() == size && l.align() == align,
                Err(e) => !is_pow2(align as int) && e == ArenaError::InvalidAlignment,
            },
    {
        if is_power_of_two(align) {
            Ok(Layout { size, align })
        } else {
            Err(ArenaError::InvalidAlignment)
        }
    }

    /// The natural layout of one `T`.
    pub fn new<T>() -> (r: Layout)
        ensures
            r.size() == size_of::<T>(),
            r.align() == align_of::<T>(),
    {
        vstd::layout::layout_for_type_is_valid::<T>();
        Layout { size: core::mem::size_of::<T>(), align: core::mem::align_of::<T>() }
    }
}

/// The layout with the size of `layout` and the stricter of its alignment and
/// `align`; refused when `align` is not a power of two.
pub fn min_alignment(layout: &Layout, align: usize) -> (r: Result<Layout, ArenaError>)
    ensures
        match r {
            Ok(l) => {
                &&& is_pow2(align as int)
                &&& l.size() == layout.size()
                &&& l.align() == if layout.align() >= align { layout.align() } else { align }
            },
            Err(e) => !is_pow2(align as int) && e == ArenaError::InvalidAlignment,
        },
{
    if !is_power_of_two(align) {
        return Err(ArenaError::InvalidAlignment);
    }
    let a = layout.align();
    let stricter = if a >= align { a } else { align };
    Layout::from_size_align(layout.size(), stricter)
}

/// A power of two is positive.
pub proof fn lemma_pow2_positive(a: int)
    requires
        is_pow2(a),
    ensures
        a > 0,
{
    reveal(is_pow2);
}

/// The layout of `n` consecutive elements of `layout`, each padded to a
/// multiple of its alignment. Refused when the padded element size or the
/// total does not fit in `usize`.
pub fn repeat_layout(layout: &Layout, n: usize) -> (r: Result<Layout, ArenaError>)
    ensures
        ({
            let padded = padded_size(layout.size() as int, layout.align() as int);
            match r {
                Ok(l) => {
                    &&& padded <= usize::MAX
                    &&& padded * n <= usize::MAX
                    &&& l.size() == padded * n
                    &&& l.align() == layout.align()
                },
                Err(e) => (padded > usize::MAX || padded * n > usize::MAX) && e
                    == ArenaError::Overflow,
            }
        }),
{
    let size = layout.size();
    let align = layout.align();
    proof {
        lemma_pow2_positive(align as int);
    }
    let padding = alignment_offset(size, align);
    let padded = match size.checked_add(padding) {
        Some(p) => p,
        None => {
            return Err(ArenaError::Overflow);
        },
    };
    match padded.checked_mul(n) {
        Some(total) => Ok(Layout { size: total, align }),
        None => Err(ArenaError::Overflow),
    }
}

} // verus!
