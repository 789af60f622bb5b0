//! ext4: superblock, inodes, extents, directories and SELinux labels.
pub mod dir;
pub mod disk_laws;
pub mod inode;
pub mod label_laws;
pub mod selinux;
pub mod stream_laws;

use crate::buf::{get16, get32, le16, le32};
use crate::error::{fail, told, Error, Fault};
use crate::image::{disk_read, ByteSource, Image};
use crate::math::{ceil_div, div_up, two_to};
use vstd::arithmetic::power2::pow2;
use vstd::prelude::*;

verus! {

/// The magic number of the superblock.
pub const EXT4_MAGIC: u16 = 0xef53;

/// The feature of extents.
pub const EXT4_EXTENTS: u32 = 0x0040;

/// The feature of wide block numbers.
pub const EXT4_64BIT: u32 = 0x0080;

/// The feature of checksums for metadata.
pub const EXT4_METADATA_CSUM: u32 = 0x0400;

/// The feature of blocks that files share.
pub const EXT4_SHARED_BLOCKS: u32 = 0x4000;

/// The magic number of a node of an extent tree.
pub const EXT4_EXTENT_MAGIC: u16 = 0xf30a;

/// The file type of a directory.
pub const EXT4_DIRECTORY: u16 = 0x4000;

/// The number of the root directory.
pub const EXT4_ROOT_INODE: u32 = 2;

/// What is used of the superblock.
#[derive(Debug, Clone, Copy)]
pub struct Superblock {
    pub block_size: u64,
    pub inode_size: u16,
    pub blocks_per_group: u32,
    pub inodes_per_group: u32,
    pub group_descriptor_size: u16,
    pub block_count: u64,
    pub compat: u32,
    pub incompat: u32,
    pub ro_compat: u32,
}

impl View for Superblock {
    type V = Superblock;

    open spec fn view(&self) -> Superblock {
        *self
    }
}

/// The superblock that the 1024 bytes `x` hold.
pub open spec fn superblock_of(x: Seq<u8>) -> Result<Superblock, Fault> {
    if le16(x, 56) != EXT4_MAGIC {
        fail("ext4 magic is missing"@)
    } else if le32(x, 24) > 10 {
        fail("invalid ext4 block size"@)
    } else {
        Ok(
            Superblock {
                block_size: (1024 * pow2(le32(x, 24) as nat)) as u64,
                inode_size: le16(x, 88),
                blocks_per_group: le32(x, 32),
                inodes_per_group: le32(x, 40),
                group_descriptor_size: if le16(x, 254) < 32 {
                    32
                } else {
                    le16(x, 254)
                },
                block_count: (le32(x, 4) + 0x1_0000_0000 * (if le32(x, 96) & EXT4_64BIT != 0 {
                    le32(x, 336)
                } else {
                    0
                })) as u64,
                compat: le32(x, 92),
                incompat: le32(x, 96),
                ro_compat: le32(x, 100),
            },
        )
    }
}

/// The superblock of the image `d`.
pub open spec fn superblock(d: Seq<u8>) -> Result<Superblock, Fault> {
    match disk_read(d, 1024, 1024) {
        Err(e) => Err(e),
        Ok(x) => superblock_of(x),
    }
}

/// Whether the image `d` looks like ext4.
pub open spec fn probed(d: Seq<u8>) -> Result<bool, Fault> {
    match disk_read(d, 1024, 1024) {
        Err(e) => Err(e),
        Ok(x) => Ok(le16(x, 56) == EXT4_MAGIC),
    }
}

/// Whether the image looks like ext4.
pub fn probe<S: ByteSource>(image: &Image<S>) -> (r: Result<bool, Error>)
    requires
        image.wf(),
    ensures
        told(image.faulty(), r, probed(image.disk())),
{
    let data = image.read_at(1024, 1024)?;
    Ok(get16(&data, 56) == EXT4_MAGIC)
}

impl Superblock {
    /// The block size is one that [`Superblock::read`] accepts, and group
    /// descriptors have their fixed part.
    pub open spec fn wf(self) -> bool {
        1024 <= self.block_size <= 1024 * 1024 && self.group_descriptor_size >= 32
    }

    /// The number of block groups (none where groups have no blocks).
    pub open spec fn groups(self) -> u32 {
        if self.blocks_per_group == 0 {
            0
        } else {
            ceil_div(self.block_count as int, self.blocks_per_group as int) as u32
        }
    }

    /// Reads the superblock.
    pub fn read<S: ByteSource>(image: &Image<S>) -> (r: Result<Superblock, Error>)
        requires
            image.wf(),
        ensures
            told(image.faulty(), r, superblock(image.disk())),
            r matches Ok(sb) ==> sb.wf(),
    {
        let data = image.read_at(1024, 1024)?;
        if get16(&data, 56) != EXT4_MAGIC {
            return Err(Error::invalid("ext4 magic is missing"));
        }
        let log_block_size = get32(&data, 24);
        if log_block_size > 10 {
            return Err(Error::invalid("invalid ext4 block size"));
        }
        proof {
            vstd::arithmetic::power2::lemma2_to64();
            if 0 < log_block_size {
                vstd::arithmetic::power2::lemma_pow2_strictly_increases(0, log_block_size as nat);
            }
            if log_block_size < 10 {
                vstd::arithmetic::power2::lemma_pow2_strictly_increases(log_block_size as nat, 10);
            }
        }
        let block_size = 1024 * two_to(log_block_size);
        let incompat = get32(&data, 96);
        let blocks_hi: u64 = if incompat & EXT4_64BIT != 0 {
            get32(&data, 336) as u64
        } else {
            0
        };
        let descriptor_size = get16(&data, 254);
        Ok(
            Superblock {
                block_size,
                inode_size: get16(&data, 88),
                blocks_per_group: get32(&data, 32),
                inodes_per_group: get32(&data, 40),
                group_descriptor_size: if descriptor_size < 32 {
                    32
                } else {
                    descriptor_size
                },
                block_count: get32(&data, 4) as u64 + 0x1_0000_0000 * blocks_hi,
                compat: get32(&data, 92),
                incompat,
                ro_compat: get32(&data, 100),
            },
        )
    }

    /// The number of groups.
    pub fn group_count(&self) -> (n: u32)
        requires
            self.blocks_per_group > 0,
        ensures
            n == self.groups(),
    {
        div_up(self.block_count, self.blocks_per_group as u64) as u32
    }
}

} // verus!
