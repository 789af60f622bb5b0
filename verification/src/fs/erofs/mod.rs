//! EROFS: superblock, inodes, compressed clusters, directories and
//! extended attributes.
pub mod codec;
pub mod compress;
pub mod dir;
pub mod disk_laws;
pub mod encode;
pub mod inode;
pub mod lz4;
pub mod lz4_laws;
pub mod stream_laws;
pub mod xattr;

use crate::buf::{get16, get32, get64, le16, le32, le64};
use crate::error::{fail, told, Error, Fault};
use crate::image::{disk_read, ByteSource, Image};
use crate::math::two_to;
use vstd::arithmetic::power2::pow2;
use vstd::prelude::*;

verus! {

/// Where the superblock stands.
pub const SUPER_OFFSET: u64 = 1024;

/// The magic number of the superblock.
pub const MAGIC: u32 = 0xe0f5_e1e2;

/// The file type of a directory.
pub const DIRECTORY: u16 = 0x4000;

/// What is used of the superblock.
#[derive(Debug, Clone)]
pub struct Superblock {
    pub block_size: u64,
    pub root_nid: u64,
    pub meta_blkaddr: u64,
    pub feature_compat: u32,
    pub feature_incompat: u32,
    pub feature_ro_compat: u32,
    pub volume: [u8; 16],
    pub build_time: u64,
    pub build_nsec: u32,
    pub inodes: u64,
    pub xattr_blkaddr: u64,
}

/// The mathematical counterpart of [`Superblock`].
#[verifier::ext_equal]
pub struct SuperView {
    pub block_size: u64,
    pub root_nid: u64,
    pub meta_blkaddr: u64,
    pub feature_compat: u32,
    pub feature_incompat: u32,
    pub feature_ro_compat: u32,
    pub volume: Seq<u8>,
    pub build_time: u64,
    pub build_nsec: u32,
    pub inodes: u64,
    pub xattr_blkaddr: u64,
}

impl View for Superblock {
    type V = SuperView;

    open spec fn view(&self) -> SuperView {
        SuperView {
            block_size: self.block_size,
            root_nid: self.root_nid,
            meta_blkaddr: self.meta_blkaddr,
            feature_compat: self.feature_compat,
            feature_incompat: self.feature_incompat,
            feature_ro_compat: self.feature_ro_compat,
            volume: self.volume@,
            build_time: self.build_time,
            build_nsec: self.build_nsec,
            inodes: self.inodes,
            xattr_blkaddr: self.xattr_blkaddr,
        }
    }
}

/// The superblock with the given view.
pub open spec fn super_of(v: SuperView) -> Superblock {
    choose|sb: Superblock| sb@ == v
}

/// A superblock is what can be seen of it.
pub proof fn superblock_is_its_view(a: Superblock, b: Superblock)
    requires
        a@ == b@,
    ensures
        a == b,
        super_of(a@) == a,
{
    let c = super_of(a@);
    assert(c@ == a@);
    assert(c.volume@ =~= a.volume@);
    assert(c.volume =~= a.volume);
    assert(a.volume@ =~= b.volume@);
    assert(a.volume =~= b.volume);
}

/// The superblock that the 128 bytes `x` hold.
pub open spec fn superblock_of(x: Seq<u8>) -> Result<SuperView, Fault> {
    if le32(x, 0) != MAGIC {
        fail("EROFS magic is missing"@)
    } else if !(9 <= x[12] <= 20) {
        fail("invalid EROFS block size"@)
    } else if le32(x, 36) == 0 {
        fail("EROFS block count is zero"@)
    } else {
        Ok(
            SuperView {
                block_size: pow2(x[12] as nat) as u64,
                root_nid: le16(x, 14) as u64,
                meta_blkaddr: le32(x, 40) as u64,
                feature_compat: le32(x, 8),
                feature_incompat: le32(x, 80),
                feature_ro_compat: le32(x, 100),
                volume: x.subrange(64, 80),
                build_time: le64(x, 24),
                build_nsec: le32(x, 32),
                inodes: le64(x, 16),
                xattr_blkaddr: le32(x, 44) as u64,
            },
        )
    }
}

/// The superblock of the image `d`.
pub open spec fn superblock(d: Seq<u8>) -> Result<SuperView, Fault> {
    match disk_read(d, SUPER_OFFSET as int, 128) {
        Err(e) => Err(e),
        Ok(x) => superblock_of(x),
    }
}

/// Whether the image `d` looks like EROFS.
pub open spec fn probed(d: Seq<u8>) -> Result<bool, Fault> {
    match disk_read(d, SUPER_OFFSET as int, 4) {
        Err(e) => Err(e),
        Ok(x) => Ok(le32(x, 0) == MAGIC),
    }
}

/// Whether the image looks like EROFS.
pub fn probe<S: ByteSource>(image: &Image<S>) -> (r: Result<bool, Error>)
    requires
        image.wf(),
    ensures
        told(image.faulty(), r, probed(image.disk())),
{
    let magic = image.read_at(SUPER_OFFSET, 4)?;
    Ok(get32(&magic, 0) == MAGIC)
}

/// The bounds of the powers of two that are block sizes.
pub proof fn block_size_bounds(bits: nat)
    requires
        9 <= bits <= 20,
    ensures
        512 <= pow2(bits) <= 1024 * 1024,
{
    vstd::arithmetic::power2::lemma2_to64();
    if 9 < bits {
        vstd::arithmetic::power2::lemma_pow2_strictly_increases(9, bits);
    }
    if bits < 20 {
        vstd::arithmetic::power2::lemma_pow2_strictly_increases(bits, 20);
    }
}

impl Superblock {
    /// The block size is one that [`Superblock::read`] accepts, and block
    /// addresses fit their fields.
    pub open spec fn wf(self) -> bool {
        &&& exists|bits: nat| 9 <= bits <= 20 && self.block_size == #[trigger] pow2(bits)
        &&& self.meta_blkaddr <= u32::MAX
        &&& self.xattr_blkaddr <= u32::MAX
    }

    /// Reads the superblock.
    pub fn read<S: ByteSource>(image: &Image<S>) -> (r: Result<Superblock, Error>)
        requires
            image.wf(),
        ensures
            told(image.faulty(), r, superblock(image.disk())),
            r matches Ok(sb) ==> sb.wf(),
    {
        let data = image.read_at(SUPER_OFFSET, 128)?;
        if get32(&data, 0) != MAGIC {
            return Err(Error::invalid("EROFS magic is missing"));
        }
        let bits = data[12];
        if bits < 9 || bits > 20 {
            return Err(Error::invalid("invalid EROFS block size"));
        }
        proof {
            block_size_bounds(bits as nat);
        }
        let block_size = two_to(bits as u32);
        if get32(&data, 36) == 0 {
            return Err(Error::invalid("EROFS block count is zero"));
        }
        let mut volume: [u8; 16] = [0;16];
        let mut i: usize = 0;
        while i < 16
            invariant
                i <= 16,
                data@.len() == 128,
                forall|k: int| 0 <= k < i ==> volume@[k] == data@[64 + k],
            decreases 16 - i,
        {
            volume[i] = data[64 + i];
            i += 1;
        }
        assert(volume@ =~= data@.subrange(64, 80));
        Ok(
            Superblock {
                block_size,
                root_nid: get16(&data, 14) as u64,
                meta_blkaddr: get32(&data, 40) as u64,
                feature_compat: get32(&data, 8),
                feature_incompat: get32(&data, 80),
                feature_ro_compat: get32(&data, 100),
                volume,
                build_time: get64(&data, 24),
                build_nsec: get32(&data, 32),
                inodes: get64(&data, 16),
                xattr_blkaddr: get32(&data, 44) as u64,
            },
        )
    }

    /// The logarithm of the block size.
    pub fn block_bits(&self) -> (bits: u32)
        requires
            self.wf(),
        ensures
            9 <= bits <= 20,
            self.block_size == pow2(bits as nat),
    {
        let ghost target = choose|bits: nat|
            9 <= bits <= 20 && self.block_size == #[trigger] pow2(bits);
        proof {
            block_size_bounds(target);
            vstd::arithmetic::power2::lemma2_to64();
        }
        let mut bits: u32 = 0;
        let mut size: u64 = 1;
        while size < self.block_size
            invariant
                bits <= target <= 20,
                self.block_size == pow2(target),
                self.block_size <= 1024 * 1024,
                size == pow2(bits as nat),
            decreases target - bits,
        {
            proof {
                if bits == target {
                    assert(false);
                }
                vstd::arithmetic::power2::lemma_pow2_unfold((bits + 1) as nat);
            }
            size = size * 2;
            bits += 1;
        }
        proof {
            if bits < target {
                vstd::arithmetic::power2::lemma_pow2_strictly_increases(bits as nat, target);
            }
        }
        bits
    }
}

} // verus!
