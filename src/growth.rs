//! How large the next shared block is.
use vstd::prelude::*;

verus! {

/// Strategy for sizing new shared blocks.
///
/// - `Constant`: every shared block has the configured block size.
/// - `Percentage(p)`: a shared block takes `p` percent of the arena's current
///   size, rounded down to a multiple of the block size and never below it.
#[derive(Debug, Clone, Copy, PartialEq, Eq, Structural)]
pub enum GrowthStrategy {
    Constant,
    Percentage(u8),
}

impl GrowthStrategy {
    /// A percentage lies between 1 and 100.
    pub open spec fn is_valid(self) -> bool {
        match self {
            GrowthStrategy::Constant => true,
            GrowthStrategy::Percentage(p) => 1 <= p <= 100,
        }
    }
}

impl Default for GrowthStrategy {
    fn default() -> (r: GrowthStrategy)
        ensures
            r == GrowthStrategy::Constant,
    {
        GrowthStrategy::Constant
    }
}

/// Size of the next shared block, given the bytes the arena occupies.
pub open spec fn spec_next_shared_size(occupied: int, min_block_size: int, strategy: GrowthStrategy) -> int {
    match strategy {
        GrowthStrategy::Constant => min_block_size,
        GrowthStrategy::Percentage(p) => {
            let a = occupied * (p as int) / 100;
            let rounded = a - a % min_block_size;
            if rounded > min_block_size {
                rounded
            } else {
                min_block_size
            }
        },
    }
}

/// The size of the next shared block: the block size for `Constant`; for
/// `Percentage(p)`, `occupied * p / 100` rounded down to a multiple of the
/// block size, or the block size if that is larger.
pub fn next_shared_size(occupied: usize, min_block_size: usize, strategy: GrowthStrategy) -> (r: usize)
    requires
        min_block_size > 0,
        strategy.is_valid(),
    ensures
        r == spec_next_shared_size(occupied as int, min_block_size as int, strategy),
        r >= min_block_size,
        r <= if occupied >= min_block_size { occupied } else { min_block_size },
{
    match strategy {
        GrowthStrategy::Constant => min_block_size,
        GrowthStrategy::Percentage(p) => {
            let q = occupied / 100;
            let rem = occupied % 100;
            let p = p as usize;
            proof {
                let o = occupied as int;
                assert(o * p / 100 == q * p + rem * p / 100 && q * p <= o && q * p + rem * p / 100 <= o
                    && rem * p < 10000)
                    by (nonlinear_arith)
                    requires
                        q == o / 100,
                        rem == o % 100,
                        o >= 0,
                        1 <= p <= 100,
                ;
            }
            let a = q * p + rem * p / 100;
            assert(a % min_block_size <= a) by (nonlinear_arith)
                requires
                    a >= 0,
                    min_block_size > 0,
            ;
            let rounded = a - a % min_block_size;
            if rounded > min_block_size {
                rounded
            } else {
                min_block_size
            }
        },
    }
}

} // verus!
