//! Bit flags stored on each node of a tree.

use vstd::prelude::*;

verus! {

/// Directory.
pub const DIR: u16 = 1;

/// Symbolic link. Never followed; the link itself is what is accounted for.
pub const SYMLINK: u16 = 2;

/// Something that is neither a directory, a regular file, nor a symlink.
pub const OTHER: u16 = 4;

/// Lives on a different filesystem than the scan root.
pub const OTHER_FS: u16 = 8;

/// Could not be stat'd or read. Its size is unknown, not zero.
pub const ERR: u16 = 16;

/// A file with more than one name whose blocks are accounted for at this node.
pub const HARDLINK: u16 = 32;

/// A file with more than one name already accounted for elsewhere in the tree, so it contributes
/// nothing to disk usage.
pub const HARDLINK_DUP: u16 = 64;

/// Skipped because it matched an exclude rule.
pub const EXCLUDED: u16 = 128;

/// Not descended into: a directory that had already been visited.
pub const LOOP: u16 = 256;

} // verus!
