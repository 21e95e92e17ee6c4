//! Bulk construction of an 8-ary sparse Merkle tree from a bit-vector of
//! memberships.
//!
//! [`bitmap::Bitmap`] is the compact membership list, [`tree`] builds the
//! tree over it layer by layer with a hash function of the caller's,
//! [`db::Db`] is the store the nodes go to, and [`field`] holds the two
//! domain values that stand for an unset and a set bit. Everything here is
//! verified: each public function carries a contract over the mathematical
//! view of the data it touches.

pub mod bitmap;
pub mod db;
pub mod field;
pub mod tree;

use vstd::prelude::*;

verus! {

/// The figure reported for allocated memory. The allocator keeps no
/// statistics, so a fixed figure stands in for them.
pub const NOMINAL_ALLOCATION: usize = 2000000;

/// The number of bytes in a kilobyte, as memory sizes are reported.
pub const KB: usize = 1024;

/// The number of bytes in a megabyte.
pub const MB: usize = 1048576;

/// The number of bytes in a gigabyte.
pub const GB: usize = 1073741824;

/// The unit a byte count is reported in.
#[derive(Debug, Clone, Copy, PartialEq, Eq)]
pub enum ByteUnit {
    Bytes,
    Kilobytes,
    Megabytes,
    Gigabytes,
}

/// The largest unit that a byte count exceeds; plain bytes where it
/// exceeds none.
pub fn byte_unit(byte_count: usize) -> (unit: ByteUnit)
    ensures
        unit is Gigabytes <==> byte_count > GB,
        unit is Megabytes <==> MB < byte_count <= GB,
        unit is Kilobytes <==> KB < byte_count <= MB,
        unit is Bytes <==> byte_count <= KB,
{
    if byte_count > GB {
        ByteUnit::Gigabytes
    } else if byte_count > MB {
        ByteUnit::Megabytes
    } else if byte_count > KB {
        ByteUnit::Kilobytes
    } else {
        ByteUnit::Bytes
    }
}

/// The memory allocated beyond `relative_to_base` bytes: always the
/// nominal figure, whatever the base.
pub fn get_net_allocated_memory(relative_to_base: usize) -> (allocated: usize)
    ensures
        allocated == NOMINAL_ALLOCATION,
{
    NOMINAL_ALLOCATION
}

/// The memory allocated in all: the net figure relative to nothing.
pub fn get_allocated_memory() -> (allocated: usize)
    ensures
        allocated == NOMINAL_ALLOCATION,
{
    get_net_allocated_memory(0)
}

} // verus!
