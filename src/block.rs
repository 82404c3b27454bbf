//! Blocks of owned bytes, and the ordered store that holds them.
use vstd::prelude::*;

verus! {

/// What a block is: where it starts in the arena's address space, how many
/// bytes it holds, how many of them bump allocation has claimed, and its
/// contents.
pub struct BlockView {
    pub base: nat,
    pub capacity: nat,
    pub filled: nat,
    pub bytes: Seq<u8>,
}

impl BlockView {
    /// One past the block's last address.
    pub open spec fn end(self) -> nat {
        self.base + self.capacity
    }

    /// The claimed part never exceeds the capacity, and bytes past it are
    /// still zero.
    pub open spec fn wf(self) -> bool {
        &&& self.filled <= self.capacity
        &&& self.capacity > 0
        &&& self.bytes.len() == self.capacity
        &&& forall|k: int| self.filled <= k < self.capacity ==> #[trigger] self.bytes[k] == 0
    }
}

/// A fresh block: nothing claimed, every byte zero.
pub open spec fn fresh_block(base: nat, capacity: nat) -> BlockView {
    BlockView { base, capacity, filled: 0, bytes: Seq::new(capacity, |k: int| 0u8) }
}

/// A fixed-capacity byte buffer with a fill cursor.
#[derive(Debug)]
pub(crate) struct Block {
    pub(crate) data: Vec<u8>,
    pub(crate) filled: usize,
    pub(crate) base: usize,
}

impl Block {
    pub(crate) open spec fn spec_view(&self) -> BlockView {
        BlockView {
            base: self.base as nat,
            capacity: self.data@.len(),
            filled: self.filled as nat,
            bytes: self.data@,
        }
    }

    /// A zero-filled block of `capacity` bytes starting at address `base`.
    pub(crate) fn new(base: usize, capacity: usize) -> (r: Block)
        ensures
            r.spec_view() == fresh_block(base as nat, capacity as nat),
    {
        let mut data: Vec<u8> = Vec::with_capacity(capacity);
        let mut k: usize = 0;
        while k < capacity
            invariant
                k <= capacity,
                data@ == Seq::new(k as nat, |j: int| 0u8),
            decreases capacity - k,
        {
            data.push(0u8);
            k = k + 1;
        }
        assert(data@ =~= Seq::new(capacity as nat, |j: int| 0u8));
        Block { data, filled: 0, base }
    }
}

/// The blocks of an arena, in the order they were made. At most one of them,
/// the head, receives bump allocations; all others are frozen.
#[derive(Debug)]
pub(crate) struct BlockStore {
    pub(crate) blocks: Vec<Block>,
    pub(crate) head: usize,
}

impl BlockStore {
    pub(crate) open spec fn spec_blocks(&self) -> Seq<BlockView> {
        self.blocks@.map_values(|b: Block| b.spec_view())
    }

    pub(crate) fn new() -> (r: BlockStore)
        ensures
            r.spec_blocks() == Seq::<BlockView>::empty(),
            r.head == 0,
    {
        let r = BlockStore { blocks: Vec::new(), head: 0 };
        assert(r.spec_blocks() =~= Seq::<BlockView>::empty());
        r
    }

    pub(crate) fn len(&self) -> (r: usize)
        ensures
            r == self.spec_blocks().len(),
    {
        self.blocks.len()
    }

    /// Base, capacity and fill of block `i`.
    pub(crate) fn info(&self, i: usize) -> (r: (usize, usize, usize))
        requires
            i < self.spec_blocks().len(),
        ensures
            r.0 == self.spec_blocks()[i as int].base,
            r.1 == self.spec_blocks()[i as int].capacity,
            r.2 == self.spec_blocks()[i as int].filled,
    {
        let b = &self.blocks[i];
        (b.base, b.data.len(), b.filled)
    }

    /// Adds a fresh block at the end; when `as_head` it becomes the head.
    pub(crate) fn push(&mut self, base: usize, capacity: usize, as_head: bool)
        ensures
            final(self).spec_blocks() == old(self).spec_blocks().push(
                fresh_block(base as nat, capacity as nat),
            ),
            final(self).head == if as_head { old(self).spec_blocks().len() } else { old(self).head as nat },
    {
        let b = Block::new(base, capacity);
        let i = self.blocks.len();
        self.blocks.push(b);
        if as_head {
            self.head = i;
        }
        assert(self.spec_blocks() =~= old(self).spec_blocks().push(fresh_block(base as nat, capacity as nat)));
    }

    /// Moves the fill cursor of block `i` to `filled`.
    pub(crate) fn set_filled(&mut self, i: usize, filled: usize)
        requires
            i < old(self).spec_blocks().len(),
        ensures
            final(self).spec_blocks() == old(self).spec_blocks().update(
                i as int,
                BlockView { filled: filled as nat, ..old(self).spec_blocks()[i as int] },
            ),
            final(self).head == old(self).head,
    {
        self.blocks[i].filled = filled;
        assert(self.spec_blocks() =~= old(self).spec_blocks().update(
            i as int,
            BlockView { filled: filled as nat, ..old(self).spec_blocks()[i as int] },
        ));
    }
}

/// The bytes of `b` with `data` written from `offset` on.
pub open spec fn overwrite(bytes: Seq<u8>, offset: int, data: Seq<u8>) -> Seq<u8> {
    Seq::new(
        bytes.len(),
        |k: int|
            if offset <= k < offset + data.len() {
                data[k - offset]
            } else {
                bytes[k]
            },
    )
}

impl BlockStore {
    /// Copies `src` into block `i` from `offset` on.
    pub(crate) fn write(&mut self, i: usize, offset: usize, src: &[u8])
        requires
            i < old(self).spec_blocks().len(),
            offset + src@.len() <= old(self).spec_blocks()[i as int].capacity,
        ensures
            final(self).spec_blocks() == old(self).spec_blocks().update(
                i as int,
                BlockView {
                    bytes: overwrite(old(self).spec_blocks()[i as int].bytes, offset as int, src@),
                    ..old(self).spec_blocks()[i as int]
                },
            ),
            final(self).head == old(self).head,
    {
        let ghost old_bytes = self.blocks@[i as int].data@;
        let capacity = self.blocks[i].data.len();
        let mut k: usize = 0;
        while k < src.len()
            invariant
                k <= src@.len(),
                i < self.blocks@.len(),
                offset + src@.len() <= old_bytes.len(),
                old_bytes.len() == capacity,
                self.blocks@.len() == old(self).blocks@.len(),
                self.head == old(self).head,
                forall|j: int| 0 <= j < self.blocks@.len() && j != i ==> self.blocks@[j] == old(self).blocks@[j],
                self.blocks@[i as int].filled == old(self).blocks@[i as int].filled,
                self.blocks@[i as int].base == old(self).blocks@[i as int].base,
                old_bytes == old(self).blocks@[i as int].data@,
                self.blocks@[i as int].data@ == overwrite(old_bytes, offset as int, src@.take(k as int)),
            decreases src@.len() - k,
        {
            proof {
                assert(self.blocks@[i as int].data@.len() == old_bytes.len());
            }
            self.blocks[i].data.set(offset + k, src[k]);
            proof {
                assert(self.blocks@[i as int].data@ =~= overwrite(old_bytes, offset as int, src@.take(k + 1)));
            }
            k = k + 1;
        }
        proof {
            assert(src@.take(src@.len() as int) =~= src@);
            assert(self.spec_blocks() =~= old(self).spec_blocks().update(
                i as int,
                BlockView {
                    bytes: overwrite(old(self).spec_blocks()[i as int].bytes, offset as int, src@),
                    ..old(self).spec_blocks()[i as int]
                },
            ));
        }
    }

    /// A copy of `len` bytes of block `i` from `offset` on.
    pub(crate) fn read(&self, i: usize, offset: usize, len: usize) -> (r: Vec<u8>)
        requires
            i < self.spec_blocks().len(),
            offset + len <= self.spec_blocks()[i as int].capacity,
        ensures
            r@ == self.spec_blocks()[i as int].bytes.subrange(offset as int, offset + len),
    {
        let data = &self.blocks[i].data;
        let capacity = data.len();
        let mut r: Vec<u8> = Vec::with_capacity(len);
        let mut k: usize = 0;
        while k < len
            invariant
                k <= len,
                offset + len <= data@.len(),
                data@.len() == capacity,
                i < self.spec_blocks().len(),
                data@ == self.spec_blocks()[i as int].bytes,
                r@ == data@.subrange(offset as int, offset + k),
            decreases len - k,
        {
            r.push(data[offset + k]);
            proof {
                assert(r@ =~= data@.subrange(offset as int, offset + k + 1));
            }
            k = k + 1;
        }
        r
    }

    /// Drops every block.
    pub(crate) fn clear(&mut self)
        ensures
            final(self).spec_blocks() == Seq::<BlockView>::empty(),
            final(self).head == 0,
    {
        self.blocks.clear();
        self.head = 0;
        assert(self.spec_blocks() =~= Seq::<BlockView>::empty());
    }
}

} // verus!
