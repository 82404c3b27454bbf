//! Allocation by element type and count, and allocation of initialised bytes.
use vstd::arithmetic::power2::is_pow2;
use vstd::layout::{align_of, size_of};
use vstd::prelude::*;

use crate::align::{min_alignment, padded_size, repeat_layout, Layout};
use crate::arena::{alloc_post, Arena, ArenaView, Span};
use crate::error::ArenaError;

verus! {

/// The stricter of two alignments.
pub open spec fn stricter(a: nat, b: nat) -> nat {
    if a >= b {
        a
    } else {
        b
    }
}

/// What every initialised allocation promises: the outcome of a request of
/// `size` bytes aligned to `align`, with `data` written over the region
/// granted, or `Overflow` with the arena unchanged.
pub open spec fn alloc_write_post(
    pre: ArenaView,
    post: ArenaView,
    size: nat,
    align: nat,
    len: nat,
    data: Seq<u8>,
    r: Result<Span, ArenaError>,
) -> bool {
    match pre.alloc_outcome(size, align) {
        Some((v, reg)) => {
            &&& r is Ok
            &&& r->Ok_0.region() == reg
            &&& r->Ok_0.len() == len
            &&& post == v.written(reg, data)
            &&& post.bytes_of(reg) == data
            &&& size > 0 ==> (r->Ok_0.address() as int) % (align as int) == 0
        },
        None => r == Err::<Span, ArenaError>(ArenaError::Overflow) && post == pre,
    }
}

/// An element size that is a multiple of the alignment needs no padding.
proof fn lemma_no_padding(size: int, align: int)
    requires
        size >= 0,
        align > 0,
        size % align == 0,
    ensures
        padded_size(size, align) == size,
{
    assert(align % align == 0) by (nonlinear_arith)
        requires
            align > 0,
    ;
}

impl Arena {
    /// Storage for one `T`, zero-filled; refused for a zero-sized `T`.
    pub fn alloc_uninit<T>(&mut self) -> (r: Result<Span, ArenaError>)
        requires
            old(self).wf(),
        ensures
            final(self).wf(),
            size_of::<T>() == 0 ==> r == Err::<Span, ArenaError>(ArenaError::UnsupportedType) && final(self)@
                == old(self)@,
            size_of::<T>() > 0 ==> alloc_post(old(self)@, final(self)@, size_of::<T>(), align_of::<T>(), 1, r),
    {
        if core::mem::size_of::<T>() == 0 {
            return Err(ArenaError::UnsupportedType);
        }
        let layout = Layout::new::<T>();
        match self.alloc_raw(&layout) {
            Ok(span) => Ok(span.with_len(1)),
            Err(e) => Err(e),
        }
    }

    /// Storage for `len` consecutive `T`s, zero-filled; refused for a
    /// zero-sized `T`, whatever `len`, and when the array's size does not
    /// fit in `usize`.
    pub fn alloc_array_uninit<T>(&mut self, len: usize) -> (r: Result<Span, ArenaError>)
        requires
            old(self).wf(),
        ensures
            final(self).wf(),
            size_of::<T>() == 0 ==> r == Err::<Span, ArenaError>(ArenaError::UnsupportedType) && final(self)@
                == old(self)@,
            size_of::<T>() > 0 && size_of::<T>() * len > usize::MAX ==> r == Err::<Span, ArenaError>(
                ArenaError::Overflow,
            ) && final(self)@ == old(self)@,
            size_of::<T>() > 0 && size_of::<T>() * len <= usize::MAX ==> alloc_post(
                old(self)@,
                final(self)@,
                (size_of::<T>() * len) as nat,
                align_of::<T>(),
                len as nat,
                r,
            ),
    {
        if core::mem::size_of::<T>() == 0 {
            return Err(ArenaError::UnsupportedType);
        }
        let element = Layout::new::<T>();
        vstd::layout::layout_for_type_is_valid::<T>();
        proof {
            lemma_no_padding(size_of::<T>() as int, align_of::<T>() as int);
        }
        let layout = match repeat_layout(&element, len) {
            Ok(l) => l,
            Err(e) => {
                return Err(e);
            },
        };
        match self.alloc_raw(&layout) {
            Ok(span) => Ok(span.with_len(len)),
            Err(e) => Err(e),
        }
    }

    /// Storage for one `T` aligned to at least `align`, zero-filled;
    /// refused for a zero-sized `T` and for an alignment that is not a power
    /// of two.
    pub fn alloc_align_uninit<T>(&mut self, align: usize) -> (r: Result<Span, ArenaError>)
        requires
            old(self).wf(),
        ensures
            final(self).wf(),
            size_of::<T>() == 0 ==> r == Err::<Span, ArenaError>(ArenaError::UnsupportedType) && final(self)@
                == old(self)@,
            size_of::<T>() > 0 && !is_pow2(align as int) ==> r == Err::<Span, ArenaError>(
                ArenaError::InvalidAlignment,
            ) && final(self)@ == old(self)@,
            size_of::<T>() > 0 && is_pow2(align as int) ==> alloc_post(
                old(self)@,
                final(self)@,
                size_of::<T>(),
                stricter(align_of::<T>(), align as nat),
                1,
                r,
            ),
    {
        if core::mem::size_of::<T>() == 0 {
            return Err(ArenaError::UnsupportedType);
        }
        let layout = match min_alignment(&Layout::new::<T>(), align) {
            Ok(l) => l,
            Err(e) => {
                return Err(e);
            },
        };
        match self.alloc_raw(&layout) {
            Ok(span) => Ok(span.with_len(1)),
            Err(e) => Err(e),
        }
    }

    /// Storage for `len` consecutive `T`s, the first aligned to at least
    /// `align`, zero-filled; refused for a zero-sized `T`, for an alignment
    /// that is not a power of two, and when the array's size does not fit in
    /// `usize`.
    pub fn alloc_array_align_uninit<T>(&mut self, len: usize, align: usize) -> (r: Result<Span, ArenaError>)
        requires
            old(self).wf(),
        ensures
            final(self).wf(),
            size_of::<T>() == 0 ==> r == Err::<Span, ArenaError>(ArenaError::UnsupportedType) && final(self)@
                == old(self)@,
            size_of::<T>() > 0 && !is_pow2(align as int) ==> r == Err::<Span, ArenaError>(
                ArenaError::InvalidAlignment,
            ) && final(self)@ == old(self)@,
            size_of::<T>() > 0 && is_pow2(align as int) && size_of::<T>() * len > usize::MAX ==> r == Err::<
                Span,
                ArenaError,
            >(ArenaError::Overflow) && final(self)@ == old(self)@,
            size_of::<T>() > 0 && is_pow2(align as int) && size_of::<T>() * len <= usize::MAX ==> alloc_post(
                old(self)@,
                final(self)@,
                (size_of::<T>() * len) as nat,
                stricter(align_of::<T>(), align as nat),
                len as nat,
                r,
            ),
    {
        if core::mem::size_of::<T>() == 0 {
            return Err(ArenaError::UnsupportedType);
        }
        if !crate::align::is_power_of_two(align) {
            return Err(ArenaError::InvalidAlignment);
        }
        let element = Layout::new::<T>();
        vstd::layout::layout_for_type_is_valid::<T>();
        proof {
            lemma_no_padding(size_of::<T>() as int, align_of::<T>() as int);
        }
        let array = match repeat_layout(&element, len) {
            Ok(l) => l,
            Err(e) => {
                return Err(e);
            },
        };
        let layout = match min_alignment(&array, align) {
            Ok(l) => l,
            Err(e) => {
                return Err(e);
            },
        };
        match self.alloc_raw(&layout) {
            Ok(span) => Ok(span.with_len(len)),
            Err(e) => Err(e),
        }
    }
}

} // verus!
