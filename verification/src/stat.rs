//! What a stat says about an entry, as plain numbers.

use vstd::prelude::*;

use crate::model::{Kind, Meta};

verus! {

/// The fields of a stat that matter here.
#[derive(Clone, Copy, Debug, PartialEq, Eq, Structural)]
pub struct Stat {
    pub dev: u64,
    pub ino: u64,
    pub size: i64,
    pub mtime: i64,
    pub mode: u32,
    /// Blocks of 512 bytes.
    pub blocks: u64,
    pub nlink: u64,
}

/// The bits of a mode that say what kind of entry it is.
pub const MODE_KIND: u32 = 0xf000;

pub const MODE_FIFO: u32 = 0x1000;

pub const MODE_DIR: u32 = 0x4000;

pub const MODE_FILE: u32 = 0x8000;

pub const MODE_SYMLINK: u32 = 0xa000;

impl Stat {
    pub open spec fn spec_kind(&self) -> Kind {
        let bits = self.mode & MODE_KIND;
        if bits == MODE_DIR {
            Kind::Dir
        } else if bits == MODE_FILE {
            Kind::File
        } else if bits == MODE_SYMLINK {
            Kind::Symlink
        } else {
            Kind::Other
        }
    }

    /// A size that claims to be negative counts as none.
    pub open spec fn spec_size(&self) -> u64 {
        if self.size < 0 {
            0
        } else {
            self.size as u64
        }
    }

    /// The space it takes, in bytes.
    pub open spec fn spec_disk(&self) -> u64 {
        if self.blocks * 512 > u64::MAX {
            u64::MAX
        } else {
            (self.blocks * 512) as u64
        }
    }

    pub fn kind(&self) -> (r: Kind)
        ensures
            r == self.spec_kind(),
    {
        let bits: u32 = self.mode & MODE_KIND;
        if bits == MODE_DIR {
            Kind::Dir
        } else if bits == MODE_FILE {
            Kind::File
        } else if bits == MODE_SYMLINK {
            Kind::Symlink
        } else {
            Kind::Other
        }
    }

    pub fn is_fifo(&self) -> (r: bool)
        ensures
            r == (self.mode & MODE_KIND == MODE_FIFO),
    {
        self.mode & MODE_KIND == MODE_FIFO
    }

    pub fn byte_size(&self) -> (r: u64)
        ensures
            r == self.spec_size(),
    {
        if self.size < 0 {
            0
        } else {
            self.size as u64
        }
    }

    pub fn disk(&self) -> (r: u64)
        ensures
            r == self.spec_disk(),
    {
        match self.blocks.checked_mul(512) {
            Some(bytes) => bytes,
            None => u64::MAX,
        }
    }

    pub open spec fn spec_meta(&self) -> Meta {
        Meta {
            kind: self.spec_kind(),
            apparent: self.spec_size(),
            disk: self.spec_disk(),
            mtime: self.mtime,
            dev: self.dev,
            ino: self.ino,
            nlink: self.nlink,
        }
    }

    pub fn meta(&self) -> (r: Meta)
        ensures
            r == self.spec_meta(),
    {
        Meta {
            kind: self.kind(),
            apparent: self.byte_size(),
            disk: self.disk(),
            mtime: self.mtime,
            dev: self.dev,
            ino: self.ino,
            nlink: self.nlink,
        }
    }
}

/// What a stat is taken to say: an entry is what its mode makes it, never shorter than nothing, and
/// takes up its blocks, as far as that can be counted.
pub proof fn law_what_a_stat_says(stat: Stat)
    ensures
        stat.mode & 0xf000 == 0x4000 ==> stat.spec_kind() == Kind::Dir,
        stat.mode & 0xf000 == 0x8000 ==> stat.spec_kind() == Kind::File,
        stat.mode & 0xf000 == 0xa000 ==> stat.spec_kind() == Kind::Symlink,
        stat.spec_kind() == Kind::Other || stat.mode & 0xf000 == 0x4000 || stat.mode & 0xf000
            == 0x8000 || stat.mode & 0xf000 == 0xa000,
        stat.size >= 0 ==> stat.spec_size() == stat.size,
        stat.size < 0 ==> stat.spec_size() == 0,
        stat.blocks * 512 <= u64::MAX ==> stat.spec_disk() == stat.blocks * 512,
        stat.blocks * 512 > u64::MAX ==> stat.spec_disk() == u64::MAX,
        stat.spec_meta().kind == stat.spec_kind(),
        stat.spec_meta().apparent == stat.spec_size(),
        stat.spec_meta().disk == stat.spec_disk(),
        stat.spec_meta().mtime == stat.mtime,
        stat.spec_meta().dev == stat.dev,
        stat.spec_meta().ino == stat.ino,
        stat.spec_meta().nlink == stat.nlink,
{
}

} // verus!
