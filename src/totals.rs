//! Sums over a sequence of blocks.
use vstd::prelude::*;

use crate::block::BlockView;

verus! {

/// Sum of the capacities of `s`.
pub open spec fn capacity_total(s: Seq<BlockView>) -> nat
    decreases s.len(),
{
    if s.len() == 0 {
        0
    } else {
        capacity_total(s.drop_last()) + s.last().capacity
    }
}

/// Sum of the claimed bytes of `s`.
pub open spec fn filled_total(s: Seq<BlockView>) -> nat
    decreases s.len(),
{
    if s.len() == 0 {
        0
    } else {
        filled_total(s.drop_last()) + s.last().filled
    }
}

/// An empty sequence sums to zero.
pub proof fn lemma_totals_empty()
    ensures
        capacity_total(Seq::<BlockView>::empty()) == 0,
        filled_total(Seq::<BlockView>::empty()) == 0,
{
}

/// Adding a block adds its capacity and its claimed bytes.
pub proof fn lemma_totals_push(s: Seq<BlockView>, b: BlockView)
    ensures
        capacity_total(s.push(b)) == capacity_total(s) + b.capacity,
        filled_total(s.push(b)) == filled_total(s) + b.filled,
{
    assert(s.push(b).drop_last() =~= s);
}

/// Replacing one block changes the sums by the difference.
pub proof fn lemma_totals_update(s: Seq<BlockView>, i: int, b: BlockView)
    requires
        0 <= i < s.len(),
    ensures
        capacity_total(s.update(i, b)) == capacity_total(s) - s[i].capacity + b.capacity,
        filled_total(s.update(i, b)) == filled_total(s) - s[i].filled + b.filled,
    decreases s.len(),
{
    let t = s.update(i, b);
    if i == s.len() - 1 {
        assert(t.drop_last() =~= s.drop_last());
    } else {
        assert(t.drop_last() =~= s.drop_last().update(i, b));
        lemma_totals_update(s.drop_last(), i, b);
    }
}

/// The claimed bytes never exceed the capacity, summed over blocks.
pub proof fn lemma_filled_le_capacity(s: Seq<BlockView>)
    requires
        forall|i: int| 0 <= i < s.len() ==> #[trigger] s[i].filled <= s[i].capacity,
    ensures
        filled_total(s) <= capacity_total(s),
    decreases s.len(),
{
    if s.len() > 0 {
        let t = s.drop_last();
        assert forall|i: int| 0 <= i < t.len() implies #[trigger] t[i].filled <= t[i].capacity by {
            assert(t[i] == s[i]);
        }
        lemma_filled_le_capacity(t);
    }
}

} // verus!
