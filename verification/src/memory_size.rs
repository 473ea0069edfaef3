//! Sizes of objects in memory.

use vstd::prelude::*;

verus! {

/// The size of an object in memory, in bytes.
#[derive(Clone, Copy, Debug, PartialEq, Eq, Structural)]
pub struct MemorySize(pub usize);

/// Common units for a [`MemorySize`], each 1024 times the one before.
#[derive(Clone, Copy, Debug, PartialEq, Eq, Structural)]
pub enum MemoryUnit {
    /// Single bytes.
    Bytes,
    /// 1024 bytes.
    Kilobytes,
    /// 1024 kilobytes.
    Megabytes,
    /// 1024 megabytes.
    Gigabytes,
    /// 1024 gigabytes.
    Terabytes,
}

/// The largest unit in which `bytes` is at least one.
pub open spec fn unit_of(bytes: int) -> MemoryUnit {
    if bytes >= 1024 * 1024 * 1024 * 1024int {
        MemoryUnit::Terabytes
    } else if bytes >= 1024 * 1024 * 1024int {
        MemoryUnit::Gigabytes
    } else if bytes >= 1024 * 1024int {
        MemoryUnit::Megabytes
    } else if bytes >= 1024int {
        MemoryUnit::Kilobytes
    } else {
        MemoryUnit::Bytes
    }
}

impl MemorySize {
    /// A size of `bytes` bytes.
    pub fn new(bytes: usize) -> (size: Self)
        ensures
            size.0 == bytes,
    {
        MemorySize(bytes)
    }

    /// The size in bytes.
    pub fn as_bytes(&self) -> (bytes: usize)
        ensures
            bytes == self.0,
    {
        self.0
    }

    /// The unit in which this size reads best: the largest one in which it is at least one.
    pub fn appropriate_unit(&self) -> (unit: MemoryUnit)
        ensures
            unit == unit_of(self.0 as int),
    {
        let bytes: u64 = self.0 as u64;
        if bytes >= 1024u64 * 1024 * 1024 * 1024 {
            MemoryUnit::Terabytes
        } else if bytes >= 1024u64 * 1024 * 1024 {
            MemoryUnit::Gigabytes
        } else if bytes >= 1024u64 * 1024 {
            MemoryUnit::Megabytes
        } else if bytes >= 1024u64 {
            MemoryUnit::Kilobytes
        } else {
            MemoryUnit::Bytes
        }
    }
}

} // verus!
