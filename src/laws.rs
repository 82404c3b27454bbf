//! What holds of every arena, whatever was asked of it.
use vstd::prelude::*;

use crate::arena::{disjoint, lemma_allocated_le_occupied, lemma_outcome, Arena, ArenaView};

verus! {

/// The regions handed out since an arena was made or last cleared are
/// pairwise disjoint, and each lies within the capacity of one of its blocks,
/// at the address its block and offset give.
pub proof fn lemma_spans_disjoint(arena: &Arena)
    requires
        arena.wf(),
    ensures
        forall|j: int, k: int|
            0 <= j < arena@.issued.len() && 0 <= k < arena@.issued.len() && j != k ==> disjoint(
                #[trigger] arena@.issued[j],
                #[trigger] arena@.issued[k],
            ),
        forall|k: int|
            0 <= k < arena@.issued.len() ==> {
                let r = #[trigger] arena@.issued[k];
                &&& r.block < arena@.blocks.len()
                &&& r.offset + r.size <= arena@.blocks[r.block as int].capacity
                &&& r.address == arena@.blocks[r.block as int].base + r.offset
            },
{
    let a = arena@;
    assert forall|j: int, k: int|
        0 <= j < a.issued.len() && 0 <= k < a.issued.len() && j != k implies disjoint(
            #[trigger] a.issued[j],
            #[trigger] a.issued[k],
        ) by {
        if j < k {
            assert(disjoint(a.issued[j], a.issued[k]));
        } else {
            assert(disjoint(a.issued[k], a.issued[j]));
        }
    }
    assert forall|k: int| 0 <= k < a.issued.len() implies {
        let r = #[trigger] a.issued[k];
        &&& r.block < a.blocks.len()
        &&& r.offset + r.size <= a.blocks[r.block as int].capacity
        &&& r.address == a.blocks[r.block as int].base + r.offset
    } by {
        assert(a.holds(a.issued[k]));
        assert(a.blocks[a.issued[k].block as int].wf());
    }
}

/// An arena never counts more bytes granted than its blocks occupy.
pub proof fn lemma_occupied_covers_allocated(arena: &Arena)
    requires
        arena.wf(),
    ensures
        arena@.occupied >= arena@.allocated,
{
    lemma_allocated_le_occupied(arena@);
}

/// A request of zero bytes always succeeds, with an empty region and no
/// change to the bytes granted.
pub proof fn lemma_empty_request(a: ArenaView, align: nat)
    requires
        a.inv(),
    ensures
        a.alloc_outcome(0, align) is Some,
        a.alloc_outcome(0, align)->Some_0.1.size == 0,
        a.alloc_outcome(0, align)->Some_0.0.allocated == a.allocated,
{
}

/// A granted request leaves every region handed out before it where it was,
/// held by the same block, with the same bytes.
pub proof fn lemma_earlier_spans_kept(a: ArenaView, size: nat, align: nat)
    requires
        a.inv(),
        align > 0,
    ensures
        a.alloc_outcome(size, align) is Some ==> {
            let v = a.alloc_outcome(size, align)->Some_0.0;
            &&& v.issued.len() == a.issued.len() + 1
            &&& forall|k: int|
                0 <= k < a.issued.len() ==> {
                    &&& v.issued[k] == a.issued[k]
                    &&& v.holds(#[trigger] a.issued[k])
                    &&& v.bytes_of(a.issued[k]) == a.bytes_of(a.issued[k])
                }
        },
{
    lemma_outcome(a, size, align);
    if a.alloc_outcome(size, align) is Some {
        let v = a.alloc_outcome(size, align)->Some_0.0;
        assert forall|k: int| 0 <= k < a.issued.len() implies {
            &&& v.issued[k] == a.issued[k]
            &&& v.holds(#[trigger] a.issued[k])
            &&& v.bytes_of(a.issued[k]) == a.bytes_of(a.issued[k])
        } by {
            let q = a.issued[k];
            assert(a.holds(q));
            assert(v.holds(v.issued[k]));
            assert(v.blocks[q.block as int].bytes == a.blocks[q.block as int].bytes);
        }
    }
}

} // verus!
