//! What the SPI and the host-controller driver share.
use vstd::prelude::*;

verus! {

/// Address argument of a block: its number on a high-capacity card, the
/// position of its first byte on any other.
pub open spec fn block_arg(addr: u32, high_capacity: bool) -> int {
    if high_capacity {
        addr as int
    } else {
        addr * 512
    }
}

/// Whether the address argument of a block can be given.
pub open spec fn addressable(addr: u32, high_capacity: bool) -> bool {
    block_arg(addr, high_capacity) <= u32::MAX
}

/// Address argument of a block.
pub fn block_addr_of(addr: u32, high_capacity: bool) -> (arg: u32)
    requires
        addressable(addr, high_capacity),
    ensures
        arg == block_arg(addr, high_capacity),
{
    if high_capacity {
        addr
    } else {
        addr * 512
    }
}

/// Distinct blocks of one card have distinct address arguments, in the order
/// of the blocks.
pub proof fn block_arg_is_increasing(a: u32, b: u32, high_capacity: bool)
    requires
        a < b,
    ensures
        block_arg(a, high_capacity) < block_arg(b, high_capacity),
{
}

} // verus!
