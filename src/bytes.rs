//! Allocations that come back holding given bytes.
use vstd::arithmetic::power2::is_pow2;
use vstd::prelude::*;
use vstd::string::StringSliceAdditionalSpecFns;

use crate::align::{is_power_of_two, lemma_pow2_positive, Layout};
use crate::arena::{Arena, Span};
use crate::error::ArenaError;
use crate::typed::alloc_write_post;

verus! {

/// `len` copies of `value`.
fn repeat_byte(value: u8, len: usize) -> (r: Vec<u8>)
    ensures
        r@ == Seq::new(len as nat, |k: int| value),
{
    let mut r: Vec<u8> = Vec::with_capacity(len);
    let mut k: usize = 0;
    while k < len
        invariant
            k <= len,
            r@ == Seq::new(k as nat, |j: int| value),
        decreases len - k,
    {
        r.push(value);
        k = k + 1;
        assert(r@ =~= Seq::new(k as nat, |j: int| value));
    }
    r
}

impl Arena {
    /// Allocates `src.len()` bytes aligned to `align` and copies `src` there.
    fn alloc_copy(&mut self, src: &[u8], align: usize) -> (r: Result<Span, ArenaError>)
        requires
            old(self).wf(),
            is_pow2(align as int),
        ensures
            final(self).wf(),
            alloc_write_post(old(self)@, final(self)@, src@.len(), align as nat, src@.len(), src@, r),
    {
        let ghost pre = self@;
        proof {
            lemma_pow2_positive(align as int);
            crate::arena::lemma_outcome(pre, src@.len(), align as nat);
        }
        let layout = match Layout::from_size_align(src.len(), align) {
            Ok(l) => l,
            Err(e) => {
                return Err(e);
            },
        };
        match self.alloc_raw(&layout) {
            Ok(span) => {
                let ghost mid = self@;
                let ok = self.write(&span, src);
                proof {
                    assert(ok);
                    crate::arena::lemma_written_bytes(mid, span.region(), src@);
                }
                Ok(span)
            },
            Err(e) => Err(e),
        }
    }

    /// One byte holding `value`.
    pub fn alloc_value(&mut self, value: u8) -> (r: Result<Span, ArenaError>)
        requires
            old(self).wf(),
        ensures
            final(self).wf(),
            alloc_write_post(old(self)@, final(self)@, 1, 1, 1, seq![value], r),
    {
        proof {
            reveal(is_pow2);
        }
        let src = vec![value];
        proof {
            assert(src@ =~= seq![value]);
        }
        self.alloc_copy(src.as_slice(), 1)
    }

    /// `len` bytes, each holding `value`.
    pub fn alloc_array(&mut self, value: u8, len: usize) -> (r: Result<Span, ArenaError>)
        requires
            old(self).wf(),
        ensures
            final(self).wf(),
            alloc_write_post(old(self)@, final(self)@, len as nat, 1, len as nat, Seq::new(len as nat, |k: int| value), r),
    {
        proof {
            reveal(is_pow2);
        }
        let src = repeat_byte(value, len);
        self.alloc_copy(src.as_slice(), 1)
    }

    /// A copy of `slice`.
    pub fn copy_slice(&mut self, slice: &[u8]) -> (r: Result<Span, ArenaError>)
        requires
            old(self).wf(),
        ensures
            final(self).wf(),
            alloc_write_post(old(self)@, final(self)@, slice@.len(), 1, slice@.len(), slice@, r),
    {
        proof {
            reveal(is_pow2);
        }
        self.alloc_copy(slice, 1)
    }

    /// A copy of the UTF-8 bytes of `text`.
    pub fn copy_str(&mut self, text: &str) -> (r: Result<Span, ArenaError>)
        requires
            old(self).wf(),
        ensures
            final(self).wf(),
            alloc_write_post(
                old(self)@,
                final(self)@,
                text.spec_bytes().len(),
                1,
                text.spec_bytes().len(),
                text.spec_bytes(),
                r,
            ),
    {
        self.copy_slice(text.as_bytes())
    }

    /// One byte holding `value`, aligned to `align`; refused for an
    /// alignment that is not a power of two.
    pub fn alloc_align(&mut self, value: u8, align: usize) -> (r: Result<Span, ArenaError>)
        requires
            old(self).wf(),
        ensures
            final(self).wf(),
            !is_pow2(align as int) ==> r == Err::<Span, ArenaError>(ArenaError::InvalidAlignment) && final(self)@
                == old(self)@,
            is_pow2(align as int) ==> alloc_write_post(old(self)@, final(self)@, 1, align as nat, 1, seq![value], r),
    {
        if !is_power_of_two(align) {
            return Err(ArenaError::InvalidAlignment);
        }
        let src = vec![value];
        proof {
            assert(src@ =~= seq![value]);
        }
        self.alloc_copy(src.as_slice(), align)
    }

    /// `len` bytes, each holding `value`, the first aligned to `align`;
    /// refused for an alignment that is not a power of two.
    pub fn alloc_array_align(&mut self, value: u8, len: usize, align: usize) -> (r: Result<Span, ArenaError>)
        requires
            old(self).wf(),
        ensures
            final(self).wf(),
            !is_pow2(align as int) ==> r == Err::<Span, ArenaError>(ArenaError::InvalidAlignment) && final(self)@
                == old(self)@,
            is_pow2(align as int) ==> alloc_write_post(
                old(self)@,
                final(self)@,
                len as nat,
                align as nat,
                len as nat,
                Seq::new(len as nat, |k: int| value),
                r,
            ),
    {
        if !is_power_of_two(align) {
            return Err(ArenaError::InvalidAlignment);
        }
        let src = repeat_byte(value, len);
        self.alloc_copy(src.as_slice(), align)
    }

    /// A copy of `slice`, its first byte aligned to `align`; refused for an
    /// alignment that is not a power of two.
    pub fn copy_slice_align(&mut self, slice: &[u8], align: usize) -> (r: Result<Span, ArenaError>)
        requires
            old(self).wf(),
        ensures
            final(self).wf(),
            !is_pow2(align as int) ==> r == Err::<Span, ArenaError>(ArenaError::InvalidAlignment) && final(self)@
                == old(self)@,
            is_pow2(align as int) ==> alloc_write_post(
                old(self)@,
                final(self)@,
                slice@.len(),
                align as nat,
                slice@.len(),
                slice@,
                r,
            ),
    {
        if !is_power_of_two(align) {
            return Err(ArenaError::InvalidAlignment);
        }
        self.alloc_copy(slice, align)
    }
}

} // verus!
