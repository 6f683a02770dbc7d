//! How much room a volume has.
use vstd::prelude::*;

verus! {

/// The unit that a volume's block counts are in: the fragment size, or the block size where that
/// is not given.
pub open spec fn block_unit(fragment: u64, block: u64) -> u64 {
    if fragment > 0 {
        fragment
    } else {
        block
    }
}

/// Bytes available to this user, and bytes in all, from the block counts of a volume.
pub fn volume_space(fragment: u64, block: u64, available: u64, blocks: u64) -> (r: (u64, u64))
    requires
        available * block_unit(fragment, block) <= u64::MAX,
        blocks * block_unit(fragment, block) <= u64::MAX,
    ensures
        r.0 == available * block_unit(fragment, block),
        r.1 == blocks * block_unit(fragment, block),
{
    let unit: u64 = if fragment > 0 {
        fragment
    } else {
        block
    };
    (available * unit, blocks * unit)
}

} // verus!
