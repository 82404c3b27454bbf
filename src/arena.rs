//! The arena: bump allocation over a growing set of blocks.
use vstd::prelude::*;

use crate::align::{padding_for, lemma_padding_for, lemma_pow2_positive, alignment_offset, Layout};
use crate::block::{BlockStore, BlockView, fresh_block, overwrite};
use crate::error::ArenaError;
use crate::growth::{GrowthStrategy, next_shared_size, spec_next_shared_size};
use crate::totals::{
    capacity_total, filled_total, lemma_filled_le_capacity, lemma_totals_empty, lemma_totals_push, lemma_totals_update,
};

verus! {

/// Where an allocation lies: in which block, at which offset in it, at which
/// address of the arena's address space, and how many bytes long.
pub struct Region {
    pub block: nat,
    pub offset: nat,
    pub address: nat,
    pub size: nat,
}

/// Two regions share no byte. An empty region shares no byte with anything.
pub open spec fn disjoint(a: Region, b: Region) -> bool {
    a.size == 0 || b.size == 0 || a.address + a.size <= b.address || b.address + b.size <= a.address
}

/// A handle to memory handed out by an `Arena`, valid until the arena is
/// cleared. `len` counts elements: bytes for byte allocations, items of the
/// requested type for typed ones.
#[derive(Debug, Clone, Copy, PartialEq, Eq, Structural)]
pub struct Span {
    block: usize,
    offset: usize,
    address: usize,
    size: usize,
    len: usize,
}

impl Span {
    pub closed spec fn spec_block(&self) -> usize {
        self.block
    }

    pub closed spec fn spec_offset(&self) -> usize {
        self.offset
    }

    pub closed spec fn spec_address(&self) -> usize {
        self.address
    }

    pub closed spec fn spec_size(&self) -> usize {
        self.size
    }

    pub closed spec fn spec_len(&self) -> usize {
        self.len
    }

    /// Index of the block that holds the span.
    #[verifier::when_used_as_spec(spec_block)]
    pub fn block(&self) -> (r: usize)
        ensures
            r == self.spec_block(),
    {
        self.block
    }

    /// Offset of the span from the start of its block.
    #[verifier::when_used_as_spec(spec_offset)]
    pub fn offset(&self) -> (r: usize)
        ensures
            r == self.spec_offset(),
    {
        self.offset
    }

    /// Address of the span's first byte in the arena's address space.
    #[verifier::when_used_as_spec(spec_address)]
    pub fn address(&self) -> (r: usize)
        ensures
            r == self.spec_address(),
    {
        self.address
    }

    /// Length in bytes.
    #[verifier::when_used_as_spec(spec_size)]
    pub fn size(&self) -> (r: usize)
        ensures
            r == self.spec_size(),
    {
        self.size
    }

    /// Number of elements.
    #[verifier::when_used_as_spec(spec_len)]
    pub fn len(&self) -> (r: usize)
        ensures
            r == self.spec_len(),
    {
        self.len
    }

    /// The same span, counted as `len` elements.
    pub(crate) fn with_len(self, len: usize) -> (r: Span)
        ensures
            r.region() == self.region(),
            r.len() == len,
    {
        Span { len, ..self }
    }

    /// Where the span lies.
    pub open spec fn region(&self) -> Region {
        Region {
            block: self.block() as nat,
            offset: self.offset() as nat,
            address: self.address() as nat,
            size: self.size() as nat,
        }
    }
}

/// What an arena is: its blocks in order of creation, which of them is the
/// head, its configuration, the bytes its blocks occupy, the bytes granted to
/// requests, and the regions handed out since it was made or last cleared.
pub struct ArenaView {
    pub blocks: Seq<BlockView>,
    pub head: nat,
    pub min_block_size: nat,
    pub growth_strategy: GrowthStrategy,
    pub max_waste_percentage: nat,
    pub occupied: nat,
    pub allocated: nat,
    pub issued: Seq<Region>,
}

impl ArenaView {
    /// The configuration is one an arena can be built with.
    pub open spec fn config_ok(self) -> bool {
        &&& 0 < self.min_block_size <= usize::MAX
        &&& 1 <= self.max_waste_percentage <= 100
        &&& self.growth_strategy.is_valid()
    }

    /// `r` lies in the claimed part of one of the blocks, at the address
    /// that its offset gives.
    pub open spec fn holds(self, r: Region) -> bool {
        &&& r.block < self.blocks.len()
        &&& r.offset + r.size <= self.blocks[r.block as int].filled
        &&& r.address == self.blocks[r.block as int].base + r.offset
    }

    /// What holds of every arena: blocks lie one after another in the
    /// address space and keep their claimed part within their capacity; the
    /// byte counts match the blocks; the regions handed out lie in the blocks
    /// and share no byte.
    pub open spec fn inv(self) -> bool {
        &&& self.config_ok()
        &&& self.occupied <= usize::MAX
        &&& self.blocks.len() == 0 ==> {
            &&& self.occupied == 0
            &&& self.allocated == 0
            &&& self.head == 0
            &&& self.issued.len() == 0
        }
        &&& self.blocks.len() > 0 ==> self.head < self.blocks.len()
        &&& forall|i: int| 0 <= i < self.blocks.len() ==> (#[trigger] self.blocks[i]).wf()
        &&& forall|i: int, j: int|
            0 <= i < j < self.blocks.len() ==> (#[trigger] self.blocks[i]).end() <= (#[trigger] self.blocks[j]).base
        &&& forall|i: int| 0 <= i < self.blocks.len() ==> (#[trigger] self.blocks[i]).end() <= self.occupied
        &&& capacity_total(self.blocks) == self.occupied
        &&& self.allocated <= filled_total(self.blocks)
        &&& forall|k: int| 0 <= k < self.issued.len() ==> self.holds(#[trigger] self.issued[k])
        &&& forall|j: int, k: int|
            0 <= j < k < self.issued.len() ==> disjoint(#[trigger] self.issued[j], #[trigger] self.issued[k])
    }

    /// The bytes that region `r` covers.
    pub open spec fn bytes_of(self, r: Region) -> Seq<u8> {
        self.blocks[r.block as int].bytes.subrange(r.offset as int, (r.offset + r.size) as int)
    }

    /// The arena after `data` is written over region `r`.
    pub open spec fn written(self, r: Region, data: Seq<u8>) -> ArenaView {
        let b = self.blocks[r.block as int];
        ArenaView {
            blocks: self.blocks.update(
                r.block as int,
                BlockView { bytes: overwrite(b.bytes, r.offset as int, data), ..b },
            ),
            ..self
        }
    }
}

/// The allocation rule, on the model.
impl ArenaView {
    /// The arena with its first block made, if it had none.
    pub open spec fn with_first_block(self) -> ArenaView {
        if self.blocks.len() == 0 {
            ArenaView {
                blocks: seq![fresh_block(0, self.min_block_size)],
                head: 0,
                occupied: self.min_block_size,
                ..self
            }
        } else {
            self
        }
    }

    /// The block that receives bump allocations.
    pub open spec fn head_block(self) -> BlockView {
        self.blocks[self.head as int]
    }

    /// Where a request aligned to `align` would start in the head block.
    pub open spec fn candidate_start(self, align: nat) -> int {
        let h = self.head_block();
        h.filled + padding_for((h.base + h.filled) as int, align as int)
    }

    /// A request fits in what is left of the head block.
    pub open spec fn fits_head(self, size: nat, align: nat) -> bool {
        self.candidate_start(align) + size <= self.head_block().capacity
    }

    /// The smaller of the head block's and the whole arena's unclaimed
    /// share, in percent, rounded down.
    pub open spec fn waste_percentage(self) -> int {
        let h = self.head_block();
        let in_head = (h.capacity - h.filled) * 100 / (h.capacity as int);
        let in_arena = (self.occupied - self.allocated) * 100 / (self.occupied as int);
        if in_head <= in_arena {
            in_head
        } else {
            in_arena
        }
    }

    /// Size of the next shared block under the growth strategy.
    pub open spec fn next_shared_size(self) -> int {
        spec_next_shared_size(self.occupied as int, self.min_block_size as int, self.growth_strategy)
    }

    /// A request that misses the head block gets a new shared block, rather
    /// than a standalone one, when it leaves room to spare in a block of the
    /// next shared size and waste is within bounds.
    pub open spec fn is_shared(self, size: nat, align: nat) -> bool {
        &&& size + align <= self.next_shared_size()
        &&& self.waste_percentage() <= self.max_waste_percentage
    }

    /// Capacity of the block made for a request that misses the head block:
    /// the next shared size, or room for the request at any placement.
    pub open spec fn new_block_capacity(self, size: nat, align: nat) -> int {
        if self.is_shared(size, align) {
            self.next_shared_size()
        } else {
            size + align - 1
        }
    }

    /// The outcome of a request of `size` bytes aligned to `align`: the arena
    /// after it and the region granted, or `None` where the new block or the
    /// byte counts would not fit in `usize`.
    pub open spec fn alloc_outcome(self, size: nat, align: nat) -> Option<(ArenaView, Region)> {
        let s = self.with_first_block();
        let h = s.head_block();
        if size == 0 {
            let r = Region { block: s.head, offset: 0, address: h.base, size: 0 };
            Some((ArenaView { issued: s.issued.push(r), ..s }, r))
        } else if s.fits_head(size, align) {
            let start = s.candidate_start(align) as nat;
            let r = Region { block: s.head, offset: start, address: h.base + start, size };
            Some(
                (
                    ArenaView {
                        blocks: s.blocks.update(s.head as int, BlockView { filled: start + size, ..h }),
                        allocated: s.allocated + size,
                        issued: s.issued.push(r),
                        ..s
                    },
                    r,
                ),
            )
        } else {
            let capacity = s.new_block_capacity(size, align);
            if capacity + s.occupied > usize::MAX {
                None
            } else {
                let base = s.occupied;
                let start = padding_for(base as int, align as int) as nat;
                let i = s.blocks.len();
                let r = Region { block: i, offset: start, address: base + start, size };
                let b = BlockView { filled: start + size, ..fresh_block(base, capacity as nat) };
                Some(
                    (
                        ArenaView {
                            blocks: s.blocks.push(b),
                            head: if s.is_shared(size, align) { i } else { s.head },
                            occupied: s.occupied + capacity as nat,
                            allocated: s.allocated + size,
                            issued: s.issued.push(r),
                            ..s
                        },
                        r,
                    ),
                )
            }
        }
    }
}

/// What every allocation promises: `r` is the outcome of a request of `size`
/// bytes aligned to `align`, or `Overflow` with the arena unchanged; a span
/// of `len` elements that is aligned, unless empty, and reads as zeros.
pub open spec fn alloc_post(
    pre: ArenaView,
    post: ArenaView,
    size: nat,
    align: nat,
    len: nat,
    r: Result<Span, ArenaError>,
) -> bool {
    match pre.alloc_outcome(size, align) {
        Some((v, reg)) => {
            &&& r is Ok
            &&& post == v
            &&& r->Ok_0.region() == reg
            &&& r->Ok_0.len() == len
            &&& size > 0 ==> (r->Ok_0.address() as int) % (align as int) == 0
            &&& post.bytes_of(reg) == Seq::new(size, |k: int| 0u8)
        },
        None => r == Err::<Span, ArenaError>(ArenaError::Overflow) && post == pre,
    }
}

/// Where a request that is not empty goes.
enum Placement {
    /// In the head block, at this offset.
    InHead { start: usize },
    /// In a new block of this capacity, which becomes the head when shared.
    NewBlock { capacity: usize, shared: bool },
    /// Nowhere: the new block or the byte counts would not fit in `usize`.
    TooLarge,
}

/// A memory arena: it grants requests from blocks it owns and frees them
/// only all at once, in `clear` or when dropped. Every operation that changes
/// the arena takes it by `&mut`, so no two of them can interleave.
pub struct Arena {
    blocks: BlockStore,
    min_block_size: usize,
    growth_strategy: GrowthStrategy,
    max_waste_percentage: usize,
    occupied: usize,
    allocated: usize,
    issued: Ghost<Seq<Region>>,
}

impl View for Arena {
    type V = ArenaView;

    closed spec fn view(&self) -> ArenaView {
        ArenaView {
            blocks: self.blocks.spec_blocks(),
            head: self.blocks.head as nat,
            min_block_size: self.min_block_size as nat,
            growth_strategy: self.growth_strategy,
            max_waste_percentage: self.max_waste_percentage as nat,
            occupied: self.occupied as nat,
            allocated: self.allocated as nat,
            issued: self.issued@,
        }
    }
}

impl Arena {
    /// The arena is well formed: its model meets the invariant.
    pub open spec fn wf(&self) -> bool {
        self@.inv()
    }

    /// An empty arena with blocks of 1 KiB, constant growth and at most 20
    /// percent waste.
    pub fn new() -> (r: Arena)
        ensures
            r.wf(),
            r@.blocks.len() == 0,
            r@.min_block_size == 1024,
            r@.growth_strategy == GrowthStrategy::Constant,
            r@.max_waste_percentage == 20,
            r@.occupied == 0,
            r@.allocated == 0,
            r@.issued.len() == 0,
    {
        let r = Arena {
            blocks: BlockStore::new(),
            min_block_size: 1024,
            growth_strategy: GrowthStrategy::Constant,
            max_waste_percentage: 20,
            occupied: 0,
            allocated: 0,
            issued: Ghost(Seq::empty()),
        };
        proof {
            assert(r@.blocks.len() == 0);
        }
        r
    }

    /// The same arena with blocks of `block_size` bytes.
    pub fn with_block_size(self, block_size: usize) -> (r: Arena)
        requires
            self.wf(),
            block_size > 0,
            self@.blocks.len() == 0,
        ensures
            r.wf(),
            r@ == (ArenaView { min_block_size: block_size as nat, ..self@ }),
    {
        Arena { min_block_size: block_size, ..self }
    }

    /// The same arena with at most `max_waste_percentage` percent of waste
    /// before a shared block is given up for a standalone one.
    pub fn with_max_waste_percentage(self, max_waste_percentage: usize) -> (r: Arena)
        requires
            self.wf(),
            1 <= max_waste_percentage <= 100,
        ensures
            r.wf(),
            r@ == (ArenaView { max_waste_percentage: max_waste_percentage as nat, ..self@ }),
    {
        Arena { max_waste_percentage, ..self }
    }

    /// The same arena with another strategy for sizing shared blocks.
    pub fn with_growth_strategy(self, growth_strategy: GrowthStrategy) -> (r: Arena)
        requires
            self.wf(),
            growth_strategy.is_valid(),
        ensures
            r.wf(),
            r@ == (ArenaView { growth_strategy, ..self@ }),
    {
        Arena { growth_strategy, ..self }
    }

    /// Bytes occupied by blocks, bytes granted to requests, and the number
    /// of blocks.
    pub fn stats(&self) -> (r: (usize, usize, usize))
        ensures
            r.0 == self@.occupied,
            r.1 == self@.allocated,
            r.2 == self@.blocks.len(),
    {
        (self.occupied, self.allocated, self.blocks.len())
    }

    /// Frees every block. Spans handed out before no longer hold.
    pub fn clear(&mut self)
        requires
            old(self).wf(),
        ensures
            final(self).wf(),
            final(self)@ == (ArenaView {
                blocks: Seq::empty(),
                head: 0,
                occupied: 0,
                allocated: 0,
                issued: Seq::empty(),
                ..old(self)@
            }),
    {
        self.blocks.clear();
        self.occupied = 0;
        self.allocated = 0;
        self.issued = Ghost(Seq::empty());
        proof {
            lemma_totals_empty();
        }
    }
}

impl Arena {
    /// Grants `layout.size()` bytes aligned to `layout.align()`, as
    /// `ArenaView::alloc_outcome` says: in the head block where they fit,
    /// else in a new block that becomes the head when it is shared.
    pub fn alloc_raw(&mut self, layout: &Layout) -> (r: Result<Span, ArenaError>)
        requires
            old(self).wf(),
        ensures
            final(self).wf(),
            alloc_post(old(self)@, final(self)@, layout.size() as nat, layout.align() as nat, layout.size() as nat, r),
    {
        let size = layout.size();
        let align = layout.align();
        let ghost pre = self@;
        proof {
            lemma_pow2_positive(align as int);
            lemma_first_block_inv(pre);
            lemma_outcome(pre, size as nat, align as nat);
            assert(pre.with_first_block().with_first_block() == pre.with_first_block());
        }
        if size == 0 {
            self.ensure_first_block();
            let head = self.blocks.head;
            let (base, _, _) = self.blocks.info(head);
            let span = Span { block: head, offset: 0, address: base, size: 0, len: 0 };
            self.issued = Ghost(self.issued@.push(span.region()));
            return Ok(span);
        }
        match self.place(size, align) {
            Placement::InHead { start } => {
                self.ensure_first_block();
                Ok(self.claim_in_head(start, size, Ghost(align as nat)))
            },
            Placement::NewBlock { capacity, shared } => {
                self.ensure_first_block();
                Ok(self.claim_new_block(capacity, shared, size, align))
            },
            Placement::TooLarge => Err(ArenaError::Overflow),
        }
    }

    /// Where a non-empty request goes, decided on the arena as it would be
    /// with its first block made, without changing it.
    fn place(&self, size: usize, align: usize) -> (p: Placement)
        requires
            self@.inv(),
            size > 0,
            align > 0,
        ensures
            ({
                let s = self@.with_first_block();
                match p {
                    Placement::InHead { start } => s.fits_head(size as nat, align as nat) && start
                        == s.candidate_start(align as nat),
                    Placement::NewBlock { capacity, shared } => {
                        &&& !s.fits_head(size as nat, align as nat)
                        &&& capacity == s.new_block_capacity(size as nat, align as nat)
                        &&& shared == s.is_shared(size as nat, align as nat)
                        &&& capacity + s.occupied <= usize::MAX
                    },
                    Placement::TooLarge => {
                        &&& !s.fits_head(size as nat, align as nat)
                        &&& s.new_block_capacity(size as nat, align as nat) + s.occupied > usize::MAX
                    },
                }
            }),
    {
        let ghost s = self@.with_first_block();
        proof {
            lemma_first_block_inv(self@);
            lemma_allocated_le_occupied(s);
        }
        let (base, capacity, filled, occupied) = if self.blocks.len() == 0 {
            (0usize, self.min_block_size, 0usize, self.min_block_size)
        } else {
            let (b, c, f) = self.blocks.info(self.blocks.head);
            (b, c, f, self.occupied)
        };
        let allocated = self.allocated;
        proof {
            let h = s.head_block();
            assert(h.wf());
            assert(h.end() <= s.occupied);
            assert(base == h.base && capacity == h.capacity && filled == h.filled);
            assert(occupied == s.occupied && allocated == s.allocated);
        }
        let pad = alignment_offset(base + filled, align);
        if pad <= capacity - filled && size <= capacity - filled - pad {
            return Placement::InHead { start: filled + pad };
        }
        let next = next_shared_size(occupied, self.min_block_size, self.growth_strategy);
        let in_head = (((capacity - filled) as u128 * 100) / (capacity as u128)) as usize;
        let in_arena = (((occupied - allocated) as u128 * 100) / (occupied as u128)) as usize;
        proof {
            lemma_percentage((capacity - filled) as int, capacity as int);
            lemma_percentage((occupied - allocated) as int, occupied as int);
        }
        let waste = if in_head <= in_arena {
            in_head
        } else {
            in_arena
        };
        let shared = size <= next && align <= next - size && waste <= self.max_waste_percentage;
        let capacity = if shared {
            next
        } else {
            if size > usize::MAX - (align - 1) {
                return Placement::TooLarge;
            }
            size + (align - 1)
        };
        if capacity > usize::MAX - occupied {
            return Placement::TooLarge;
        }
        Placement::NewBlock { capacity, shared }
    }

    /// Makes the first block if there is none yet.
    fn ensure_first_block(&mut self)
        requires
            old(self)@.inv(),
        ensures
            final(self)@ == old(self)@.with_first_block(),
    {
        if self.blocks.len() == 0 {
            self.make_first_block();
        }
    }

    /// Bump-allocates `size` bytes at `start` in the head block.
    fn claim_in_head(&mut self, start: usize, size: usize, align: Ghost<nat>) -> (span: Span)
        requires
            old(self)@.inv(),
            old(self)@.blocks.len() > 0,
            align@ > 0,
            size > 0,
            old(self)@.fits_head(size as nat, align@),
            start == old(self)@.candidate_start(align@),
        ensures
            old(self)@.alloc_outcome(size as nat, align@) == Some((final(self)@, span.region())),
            span.len() == size,
    {
        let ghost pre = self@;
        proof {
            lemma_outcome(pre, size as nat, align@);
            assert(pre.with_first_block() == pre);
        }
        let head = self.blocks.head;
        let (base, _, _) = self.blocks.info(head);
        self.blocks.set_filled(head, start + size);
        self.allocated = self.allocated + size;
        let span = Span { block: head, offset: start, address: base + start, size, len: size };
        self.issued = Ghost(self.issued@.push(span.region()));
        span
    }

    /// Makes a block of `capacity` bytes, the head when `shared`, and
    /// allocates `size` bytes aligned to `align` at its start.
    fn claim_new_block(&mut self, capacity: usize, shared: bool, size: usize, align: usize) -> (span: Span)
        requires
            old(self)@.inv(),
            old(self)@.blocks.len() > 0,
            align > 0,
            size > 0,
            !old(self)@.fits_head(size as nat, align as nat),
            capacity == old(self)@.new_block_capacity(size as nat, align as nat),
            shared == old(self)@.is_shared(size as nat, align as nat),
            capacity + old(self)@.occupied <= usize::MAX,
        ensures
            old(self)@.alloc_outcome(size as nat, align as nat) == Some((final(self)@, span.region())),
            span.len() == size,
    {
        let ghost pre = self@;
        proof {
            lemma_outcome(pre, size as nat, align as nat);
            assert(pre.with_first_block() == pre);
            lemma_padding_for(pre.occupied as int, align as int);
        }
        let base = self.occupied;
        let index = self.blocks.len();
        self.blocks.push(base, capacity, shared);
        self.occupied = base + capacity;
        let start = alignment_offset(base, align);
        self.blocks.set_filled(index, start + size);
        proof {
            let b = BlockView { filled: (start + size) as nat, ..fresh_block(base as nat, capacity as nat) };
            assert(self@.blocks =~= pre.blocks.push(b));
        }
        self.allocated = self.allocated + size;
        let span = Span { block: index, offset: start, address: base + start, size, len: size };
        self.issued = Ghost(self.issued@.push(span.region()));
        span
    }

    /// Makes the first block, which becomes the head.
    fn make_first_block(&mut self)
        requires
            old(self).wf(),
            old(self)@.blocks.len() == 0,
        ensures
            final(self)@ == old(self)@.with_first_block(),
            final(self)@.inv(),
    {
        proof {
            lemma_totals_empty();
            lemma_totals_push(Seq::empty(), fresh_block(0, self.min_block_size as nat));
            assert(Seq::<BlockView>::empty().push(fresh_block(0, self.min_block_size as nat)) =~= seq![fresh_block(0, self.min_block_size as nat)]);
        }
        self.blocks.push(0, self.min_block_size, true);
        self.occupied = self.min_block_size;
        proof {
            assert(self@.blocks =~= seq![fresh_block(0, self.min_block_size as nat)]);
        }
    }
}

impl Arena {
    /// Whether `span` lies in the claimed part of a block of this arena.
    pub fn holds(&self, span: &Span) -> (r: bool)
        requires
            self.wf(),
        ensures
            r == self@.holds(span.region()),
    {
        if span.block >= self.blocks.len() {
            return false;
        }
        let (base, _, filled) = self.blocks.info(span.block);
        proof {
            assert(self@.blocks[span.block as int].wf());
            assert(self@.blocks[span.block as int].end() <= self@.occupied);
        }
        span.offset <= filled && span.size <= filled - span.offset && span.address == base + span.offset
    }

    /// The bytes of `span`, or `None` when it does not lie in this arena.
    pub fn read(&self, span: &Span) -> (r: Option<Vec<u8>>)
        requires
            self.wf(),
        ensures
            match r {
                Some(v) => self@.holds(span.region()) && v@ == self@.bytes_of(span.region()),
                None => !self@.holds(span.region()),
            },
    {
        if !self.holds(span) {
            return None;
        }
        proof {
            assert(self@.blocks[span.block as int].wf());
        }
        Some(self.blocks.read(span.block, span.offset, span.size))
    }

    /// Copies `src` over `span`. Refused, with the arena unchanged, when the
    /// span does not lie in this arena or its size is not that of `src`.
    pub fn write(&mut self, span: &Span, src: &[u8]) -> (ok: bool)
        requires
            old(self).wf(),
        ensures
            final(self).wf(),
            ok == (old(self)@.holds(span.region()) && src@.len() == span.size()),
            final(self)@ == if ok {
                old(self)@.written(span.region(), src@)
            } else {
                old(self)@
            },
    {
        if !self.holds(span) || src.len() != span.size {
            return false;
        }
        let ghost pre = self@;
        proof {
            assert(pre.blocks[span.block as int].wf());
        }
        self.blocks.write(span.block, span.offset, src);
        proof {
            lemma_written_inv(pre, span.region(), src@);
        }
        true
    }
}

/// After writing `data` over a region, the region holds `data`.
pub(crate) proof fn lemma_written_bytes(a: ArenaView, r: Region, data: Seq<u8>)
    requires
        a.inv(),
        a.holds(r),
        data.len() == r.size,
    ensures
        a.written(r, data).bytes_of(r) == data,
{
    assert(a.blocks[r.block as int].wf());
    assert(a.written(r, data).bytes_of(r) =~= data);
}

/// Writing over a region that the arena holds keeps the invariant and the
/// bytes outside the region.
proof fn lemma_written_inv(a: ArenaView, r: Region, data: Seq<u8>)
    requires
        a.inv(),
        a.holds(r),
        data.len() == r.size,
    ensures
        a.written(r, data).inv(),
{
    let v = a.written(r, data);
    let b = a.blocks[r.block as int];
    let nb = BlockView { bytes: overwrite(b.bytes, r.offset as int, data), ..b };
    assert(b.wf());
    assert(v.blocks[r.block as int] == nb);
    assert(nb.wf());
    assert forall|i: int| 0 <= i < v.blocks.len() implies (#[trigger] v.blocks[i]).wf() by {
        if i != r.block {
            assert(v.blocks[i] == a.blocks[i]);
        }
    }
    assert forall|i: int, j: int|
        0 <= i < j < v.blocks.len() implies (#[trigger] v.blocks[i]).end() <= (#[trigger] v.blocks[j]).base by {
        assert(a.blocks[i].end() <= a.blocks[j].base);
    }
    assert forall|i: int| 0 <= i < v.blocks.len() implies (#[trigger] v.blocks[i]).end() <= v.occupied by {
        assert(a.blocks[i].end() <= a.occupied);
    }
    lemma_totals_update(a.blocks, r.block as int, nb);
    assert forall|k: int| 0 <= k < v.issued.len() implies v.holds(#[trigger] v.issued[k]) by {
        assert(a.holds(a.issued[k]));
    }
    assert forall|j: int, k: int|
        0 <= j < k < v.issued.len() implies disjoint(#[trigger] v.issued[j], #[trigger] v.issued[k]) by {
        assert(disjoint(a.issued[j], a.issued[k]));
    }
}

/// Making the first block keeps the invariant.
proof fn lemma_first_block_inv(a: ArenaView)
    requires
        a.inv(),
    ensures
        a.with_first_block().inv(),
        a.with_first_block().blocks.len() > 0,
{
    if a.blocks.len() == 0 {
        let s = a.with_first_block();
        let b = fresh_block(0, a.min_block_size);
        lemma_totals_empty();
        lemma_totals_push(Seq::empty(), b);
        assert(Seq::<BlockView>::empty().push(b) =~= s.blocks);
        assert(s.blocks[0] == b);
        assert(b.wf());
        assert(capacity_total(s.blocks) == s.occupied);
        assert(filled_total(s.blocks) == 0);
        assert(s.blocks[0].end() <= s.occupied);
    }
}

/// Every outcome of a request keeps the invariant; its region is aligned,
/// unless empty, and reads as zeros.
pub(crate) proof fn lemma_outcome(a: ArenaView, size: nat, align: nat)
    requires
        a.inv(),
        align > 0,
    ensures
        match a.alloc_outcome(size, align) {
            Some((v, r)) => {
                &&& v.inv()
                &&& v.holds(r)
                &&& size > 0 ==> r.address % align == 0
                &&& v.bytes_of(r) == Seq::new(size, |k: int| 0u8)
                &&& r.size == size
                &&& v.allocated <= v.occupied
            },
            None => true,
        },
{
    lemma_first_block_inv(a);
    let s = a.with_first_block();
    let h = s.head_block();
    assert(h.wf());
    if size == 0 {
        let r = Region { block: s.head, offset: 0, address: h.base, size: 0 };
        let v = ArenaView { issued: s.issued.push(r), ..s };
        assert forall|k: int| 0 <= k < v.issued.len() implies v.holds(#[trigger] v.issued[k]) by {
            if k < s.issued.len() {
                assert(s.holds(s.issued[k]));
            }
        }
        assert(v.bytes_of(r) =~= Seq::new(size, |k: int| 0u8));
        lemma_allocated_le_occupied(v);
    } else if s.fits_head(size, align) {
        let start = s.candidate_start(align) as nat;
        lemma_padding_for((h.base + h.filled) as int, align as int);
        let r = Region { block: s.head, offset: start, address: h.base + start, size };
        let nh = BlockView { filled: start + size, ..h };
        let v = ArenaView {
            blocks: s.blocks.update(s.head as int, nh),
            allocated: s.allocated + size,
            issued: s.issued.push(r),
            ..s
        };
        assert(v.blocks[s.head as int] == nh);
        assert forall|i: int| 0 <= i < v.blocks.len() implies (#[trigger] v.blocks[i]).wf() by {
            if i != s.head {
                assert(v.blocks[i] == s.blocks[i]);
            }
        }
        assert forall|i: int, j: int|
            0 <= i < j < v.blocks.len() implies (#[trigger] v.blocks[i]).end() <= (#[trigger] v.blocks[j]).base by {
            assert(s.blocks[i].end() <= s.blocks[j].base);
        }
        assert forall|i: int| 0 <= i < v.blocks.len() implies (#[trigger] v.blocks[i]).end() <= v.occupied by {
            assert(s.blocks[i].end() <= s.occupied);
        }
        lemma_totals_update(s.blocks, s.head as int, nh);
        assert forall|k: int| 0 <= k < v.issued.len() implies v.holds(#[trigger] v.issued[k]) by {
            if k < s.issued.len() {
                assert(s.holds(s.issued[k]));
            }
        }
        assert forall|j: int, k: int|
            0 <= j < k < v.issued.len() implies disjoint(#[trigger] v.issued[j], #[trigger] v.issued[k]) by {
            if k < s.issued.len() {
                assert(disjoint(s.issued[j], s.issued[k]));
            } else {
                let q = s.issued[j];
                assert(s.holds(q));
                if q.block != s.head {
                    let qb = s.blocks[q.block as int];
                    if q.block < s.head {
                        assert(qb.end() <= h.base);
                    } else {
                        assert(h.end() <= qb.base);
                    }
                }
            }
        }
        assert(v.bytes_of(r) =~= Seq::new(size, |k: int| 0u8)) by {
            assert forall|k: int| 0 <= k < size implies v.bytes_of(r)[k] == 0u8 by {
                assert(h.bytes[start + k] == 0u8);
            }
        }
        lemma_allocated_le_occupied(v);
    } else {
        let capacity = s.new_block_capacity(size, align);
        if capacity + s.occupied <= usize::MAX {
            let base = s.occupied;
            let start = padding_for(base as int, align as int) as nat;
            lemma_padding_for(base as int, align as int);
            let i = s.blocks.len();
            let r = Region { block: i, offset: start, address: base + start, size };
            let fb = fresh_block(base, capacity as nat);
            let b = BlockView { filled: start + size, ..fb };
            let v = ArenaView {
                blocks: s.blocks.push(b),
                head: if s.is_shared(size, align) { i } else { s.head },
                occupied: s.occupied + capacity as nat,
                allocated: s.allocated + size,
                issued: s.issued.push(r),
                ..s
            };
            assert(v.blocks[i as int] == b);
            assert(start + size <= capacity);
            assert forall|j: int| 0 <= j < v.blocks.len() implies (#[trigger] v.blocks[j]).wf() by {
                if j < i {
                    assert(v.blocks[j] == s.blocks[j]);
                }
            }
            assert forall|j: int, k: int|
                0 <= j < k < v.blocks.len() implies (#[trigger] v.blocks[j]).end() <= (#[trigger] v.blocks[k]).base by {
                assert(v.blocks[j] == s.blocks[j]);
                if k < i {
                    assert(v.blocks[k] == s.blocks[k]);
                    assert(s.blocks[j].end() <= s.blocks[k].base);
                } else {
                    assert(s.blocks[j].end() <= s.occupied);
                }
            }
            assert forall|j: int| 0 <= j < v.blocks.len() implies (#[trigger] v.blocks[j]).end() <= v.occupied by {
                if j < i {
                    assert(v.blocks[j] == s.blocks[j]);
                    assert(s.blocks[j].end() <= s.occupied);
                }
            }
            lemma_totals_push(s.blocks, b);
            assert forall|k: int| 0 <= k < v.issued.len() implies v.holds(#[trigger] v.issued[k]) by {
                if k < s.issued.len() {
                    let q = s.issued[k];
                    assert(s.holds(q));
                    assert(v.blocks[q.block as int] == s.blocks[q.block as int]);
                }
            }
            assert forall|j: int, k: int|
                0 <= j < k < v.issued.len() implies disjoint(#[trigger] v.issued[j], #[trigger] v.issued[k]) by {
                if k < s.issued.len() {
                    assert(disjoint(s.issued[j], s.issued[k]));
                } else {
                    let q = s.issued[j];
                    assert(s.holds(q));
                    assert(s.blocks[q.block as int].end() <= s.occupied);
                }
            }
            assert(v.bytes_of(r) =~= Seq::new(size, |k: int| 0u8));
            lemma_allocated_le_occupied(v);
        }
    }
}

/// `part * 100 / whole`, for a part of a whole, is a percentage.
proof fn lemma_percentage(part: int, whole: int)
    requires
        0 <= part <= whole,
        whole > 0,
    ensures
        0 <= part * 100 / whole <= 100,
{
    assert(0 <= part * 100 / whole <= 100) by (nonlinear_arith)
        requires
            0 <= part <= whole,
            whole > 0,
    ;
}

/// The arena never grants more bytes than its blocks occupy.
pub proof fn lemma_allocated_le_occupied(a: ArenaView)
    requires
        a.inv(),
    ensures
        a.allocated <= a.occupied,
{
    assert forall|i: int| 0 <= i < a.blocks.len() implies #[trigger] a.blocks[i].filled <= a.blocks[i].capacity by {
        assert(a.blocks[i].wf());
    }
    lemma_filled_le_capacity(a.blocks);
}

} // verus!
