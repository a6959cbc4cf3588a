//! The arithmetic of reads from a file of a given size.
use vstd::prelude::*;

verus! {

/// Whether `count` bytes at `offset` lie within a file of `size` bytes; a read
/// beyond the end yields no bytes at all.
pub fn read_in_range(size: u64, offset: u64, count: usize) -> (b: bool)
    requires
        offset + count <= u64::MAX,
    ensures
        b == (offset + count <= size),
{
    !(offset + count as u64 > size)
}

} // verus!
