//! One number for a device and an inode together.

use vstd::prelude::*;

verus! {

/// The number that stands for an inode on a device.
pub open spec fn key_of(dev: u64, ino: u64) -> u128 {
    (dev * 0x1_0000_0000_0000_0000 + ino) as u128
}

pub fn inode_key(dev: u64, ino: u64) -> (r: u128)
    ensures
        r == key_of(dev, ino),
{
    dev as u128 * 0x1_0000_0000_0000_0000 + ino as u128
}

/// Different inodes, or inodes on different devices, have different numbers.
pub proof fn law_keys_are_distinct(dev: u64, ino: u64, dev2: u64, ino2: u64)
    requires
        key_of(dev, ino) == key_of(dev2, ino2),
    ensures
        dev == dev2,
        ino == ino2,
{
    assert(dev * 0x1_0000_0000_0000_0000 + ino <= u128::MAX);
    assert(dev2 * 0x1_0000_0000_0000_0000 + ino2 <= u128::MAX);
}

} // verus!
