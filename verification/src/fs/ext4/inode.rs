//! ext4 inodes, extent trees and file data.
use super::selinux::{block_label, inode_label, read_selinux_context, read_selinux_from_block};
use super::{Superblock, EXT4_64BIT, EXT4_EXTENT_MAGIC};
use crate::buf::{
    get16, get32, le16, le32, put, read32, read_bytes, splice, u32le, zeroed, zeros,
};
use crate::error::{fail, told, Error, Fault};
use crate::image::{disk_read, ByteSink, ByteSource, Image};
use crate::math::{greatest, least};
use crate::stream::{pieces, stream_range, write_zeroes};
use crate::text::{dec, opt_text, with_number};
use vstd::prelude::*;

verus! {

/// Largest file that is read into memory.
pub const MAX_FILE_BUFFER: u64 = 17179869184;

/// An inode.
#[derive(Debug, Clone)]
pub struct Ext4Inode {
    pub mode: u16,
    pub uid: u32,
    pub gid: u32,
    pub size: u64,
    pub flags: u32,
    pub block: [u8; 60],
    pub context: Option<String>,
}

/// The mathematical counterpart of [`Ext4Inode`].
#[verifier::ext_equal]
pub struct InodeView {
    pub mode: u16,
    pub uid: u32,
    pub gid: u32,
    pub size: u64,
    pub flags: u32,
    pub block: Seq<u8>,
    pub context: Option<Seq<char>>,
}

impl View for Ext4Inode {
    type V = InodeView;

    open spec fn view(&self) -> InodeView {
        InodeView {
            mode: self.mode,
            uid: self.uid,
            gid: self.gid,
            size: self.size,
            flags: self.flags,
            block: self.block@,
            context: opt_text(self.context),
        }
    }
}

/// A run of blocks of a file.
#[derive(Debug, Clone, Copy)]
pub struct Extent {
    pub logical_block: u64,
    pub physical_block: u64,
    pub length: u64,
    pub unwritten: bool,
}

// ---------------------------------------------------------------------
// Inodes
// ---------------------------------------------------------------------
/// Where the descriptor of a group stands.
pub open spec fn descriptor_offset(sb: Superblock, group: int) -> int {
    (if sb.block_size == 1024 {
        2 * sb.block_size
    } else {
        sb.block_size as int
    }) + group * sb.group_descriptor_size
}

/// The block of the inode table that a descriptor names.
pub open spec fn table_block(sb: Superblock, x: Seq<u8>) -> int {
    le32(x, 8) + 0x1_0000_0000 * (if sb.incompat & EXT4_64BIT != 0 && x.len() >= 44 {
        le32(x, 40) as int
    } else {
        0
    })
}

/// Where the body of an inode stands.
pub open spec fn inode_offset(sb: Superblock, d: Seq<u8>, number: int) -> Result<int, Fault> {
    let group = (number - 1) / (sb.inodes_per_group as int);
    let index = (number - 1) % (sb.inodes_per_group as int);
    if number == 0 || number > sb.inodes_per_group * sb.groups() {
        fail("inode "@ + dec(number) + " is out of range"@)
    } else {
        match disk_read(d, descriptor_offset(sb, group), sb.group_descriptor_size as int) {
            Err(e) => Err(e),
            Ok(x) => {
                let at = table_block(sb, x) * sb.block_size + index * sb.inode_size;
                if at > u64::MAX {
                    fail("inode offset overflow"@)
                } else {
                    Ok(at)
                }
            },
        }
    }
}

/// The block of extended attributes that an inode body names (0 for none).
pub open spec fn acl_block(sb: Superblock, raw: Seq<u8>) -> int {
    le32(raw, 104) + 0x1_0000_0000 * (if sb.incompat & EXT4_64BIT != 0 && raw.len() >= 132 {
        le16(raw, 130) as int
    } else {
        0
    })
}

/// The label of an inode: the one in its body, else the one in its
/// attribute block.
pub open spec fn label_of(sb: Superblock, d: Seq<u8>, raw: Seq<u8>) -> Result<
    Option<Seq<char>>,
    Fault,
> {
    match inode_label(raw) {
        Some(label) => Ok(Some(label)),
        None => match read32(raw, 104) {
            Err(e) => Err(e),
            Ok(_) => if 0 < acl_block(sb, raw) < sb.block_count {
                match disk_read(d, acl_block(sb, raw) * sb.block_size, sb.block_size as int) {
                    Err(e) => Err(e),
                    Ok(x) => Ok(block_label(x)),
                }
            } else {
                Ok(None)
            },
        },
    }
}

/// The fields of an inode body.
pub open spec fn inode_fields(raw: Seq<u8>, context: Option<Seq<char>>) -> InodeView {
    InodeView {
        mode: le16(raw, 0),
        uid: (le16(raw, 2) + 0x1_0000 * (if raw.len() >= 122 {
            le16(raw, 120) as int
        } else {
            0
        })) as u32,
        gid: (le16(raw, 24) + 0x1_0000 * (if raw.len() >= 124 {
            le16(raw, 122) as int
        } else {
            0
        })) as u32,
        size: (le32(raw, 4) + 0x1_0000_0000 * (if raw.len() >= 112 {
            le32(raw, 108) as int
        } else {
            0
        })) as u64,
        flags: le32(raw, 32),
        block: raw.subrange(40, 100),
        context,
    }
}

/// The inode of the given number.
pub open spec fn inode_of(sb: Superblock, d: Seq<u8>, number: int) -> Result<InodeView, Fault> {
    match inode_offset(sb, d, number) {
        Err(e) => Err(e),
        Ok(at) => match disk_read(d, at, sb.inode_size as int) {
            Err(e) => Err(e),
            Ok(raw) => match read_bytes(raw, 40, 60) {
                Err(e) => Err(e),
                Ok(_) => match label_of(sb, d, raw) {
                    Err(e) => Err(e),
                    Ok(context) => Ok(inode_fields(raw, context)),
                },
            },
        },
    }
}

/// The position of the body of an inode.
pub fn locate<S: ByteSource>(sb: &Superblock, image: &Image<S>, inode_number: u32) -> (r: Result<
    u64,
    Error,
>)
    requires
        image.wf(),
        sb.wf(),
    ensures
        match r {
            Ok(at) => inode_offset(*sb, image.disk(), inode_number as int) == Ok::<int, Fault>(
                at as int,
            ),
            Err(e) => inode_offset(*sb, image.disk(), inode_number as int) == Err::<int, Fault>(e@)
                || (image.faulty() && e is Io),
        },
{
    let groups: u32 = if sb.blocks_per_group == 0 {
        0
    } else {
        sb.group_count()
    };
    assert(sb.inodes_per_group * groups <= 0xffff_ffff * 0xffff_ffff) by (nonlinear_arith)
        requires
            sb.inodes_per_group <= 0xffff_ffff,
            groups <= 0xffff_ffff,
    ;
    if inode_number == 0 || inode_number as u64 > sb.inodes_per_group as u64 * groups as u64 {
        return Err(
            Error::Invalid(with_number("inode ", inode_number as u64, " is out of range")),
        );
    }
    assert(sb.inodes_per_group > 0) by (nonlinear_arith)
        requires
            0 < sb.inodes_per_group * groups,
    ;
    let group = (inode_number - 1) / sb.inodes_per_group;
    let index = (inode_number - 1) % sb.inodes_per_group;
    let first: u64 = if sb.block_size == 1024 {
        2 * sb.block_size
    } else {
        sb.block_size
    };
    assert(group * sb.group_descriptor_size <= 0xffff_ffff * 0xffff) by (nonlinear_arith)
        requires
            group <= 0xffff_ffff,
            sb.group_descriptor_size <= 0xffff,
    ;
    assert(index * sb.inode_size <= 0xffff_ffff * 0xffff) by (nonlinear_arith)
        requires
            index <= 0xffff_ffff,
            sb.inode_size <= 0xffff,
    ;
    let descriptor = image.read_at(
        first + group as u64 * sb.group_descriptor_size as u64,
        sb.group_descriptor_size as usize,
    )?;
    let table_hi: u64 = if sb.incompat & EXT4_64BIT != 0 && descriptor.len() >= 44 {
        get32(&descriptor, 40) as u64
    } else {
        0
    };
    let table = get32(&descriptor, 8) as u64 + 0x1_0000_0000 * table_hi;
    let start = match table.checked_mul(sb.block_size) {
        Some(v) => v,
        None => {
            return Err(Error::invalid("inode offset overflow"));
        },
    };
    match start.checked_add(index as u64 * sb.inode_size as u64) {
        Some(v) => Ok(v),
        None => Err(Error::invalid("inode offset overflow")),
    }
}

fn read_label<S: ByteSource>(sb: &Superblock, image: &Image<S>, raw: &[u8]) -> (r: Result<
    Option<String>,
    Error,
>)
    requires
        image.wf(),
        sb.wf(),
    ensures
        match r {
            Ok(context) => label_of(*sb, image.disk(), raw@) == Ok::<Option<Seq<char>>, Fault>(
                opt_text(context),
            ),
            Err(e) => label_of(*sb, image.disk(), raw@) == Err::<Option<Seq<char>>, Fault>(e@) || (
            image.faulty() && e is Io),
        },
{
    match read_selinux_context(raw) {
        Some(label) => Ok(Some(label)),
        None => {
            let low = u32le(raw, 104)? as u64;
            let high: u64 = if sb.incompat & EXT4_64BIT != 0 && raw.len() >= 132 {
                get16(raw, 130) as u64
            } else {
                0
            };
            let block = low + 0x1_0000_0000 * high;
            if block != 0 && block < sb.block_count {
                let at = match block.checked_mul(sb.block_size) {
                    Some(v) => v,
                    None => {
                        return Err(Error::invalid("read range overflow"));
                    },
                };
                let data = image.read_at(at, sb.block_size as usize)?;
                Ok(read_selinux_from_block(&data))
            } else {
                Ok(None)
            }
        },
    }
}

fn block_of(raw: &[u8]) -> (block: [u8; 60])
    requires
        raw@.len() >= 100,
    ensures
        block@ == raw@.subrange(40, 100),
{
    let mut block: [u8; 60] = [0;60];
    let mut i: usize = 0;
    while i < 60
        invariant
            i <= 60,
            raw@.len() >= 100,
            forall|k: int| 0 <= k < i ==> block@[k] == raw@[40 + k],
        decreases 60 - i,
    {
        block[i] = raw[40 + i];
        i += 1;
    }
    assert(block@ =~= raw@.subrange(40, 100));
    block
}

/// Read the inode of the given number.
pub fn read<S: ByteSource>(sb: &Superblock, image: &Image<S>, inode_number: u32) -> (r: Result<
    Ext4Inode,
    Error,
>)
    requires
        image.wf(),
        sb.wf(),
    ensures
        told(image.faulty(), r, inode_of(*sb, image.disk(), inode_number as int)),
{
    let at = locate(sb, image, inode_number)?;
    let raw = image.read_at(at, sb.inode_size as usize)?;
    if raw.len() < 100 {
        crate::buf::bytes(&raw, 40, 60)?;
    }
    let context = read_label(sb, image, &raw)?;
    let size_hi: u64 = if raw.len() >= 112 {
        get32(&raw, 108) as u64
    } else {
        0
    };
    let uid_hi: u32 = if raw.len() >= 122 {
        get16(&raw, 120) as u32
    } else {
        0
    };
    let gid_hi: u32 = if raw.len() >= 124 {
        get16(&raw, 122) as u32
    } else {
        0
    };
    Ok(
        Ext4Inode {
            mode: get16(&raw, 0),
            uid: get16(&raw, 2) as u32 + 0x1_0000 * uid_hi,
            gid: get16(&raw, 24) as u32 + 0x1_0000 * gid_hi,
            size: get32(&raw, 4) as u64 + 0x1_0000_0000 * size_hi,
            flags: get32(&raw, 32),
            block: block_of(&raw),
            context,
        },
    )
}

// ---------------------------------------------------------------------
// Extent trees
// ---------------------------------------------------------------------
/// The extent that a leaf entry describes.
pub open spec fn leaf_extent(node: Seq<u8>, at: int) -> Extent {
    let len = le16(node, at + 4);
    Extent {
        logical_block: le32(node, at) as u64,
        physical_block: (le32(node, at + 8) + 0x1_0000_0000 * le16(node, at + 6)) as u64,
        length: (len % 0x8000) as u64,
        unwritten: len >= 0x8000,
    }
}

/// The extents below a node of an extent tree, in the order of the tree.
pub open spec fn extents_of(d: Seq<u8>, bs: int, node: Seq<u8>, depth: int, entries: int) -> Result<
    Seq<Extent>,
    Fault,
>
    decreases depth, 1int, 0int,
{
    if depth < 0 || depth > 16 {
        fail("invalid ext4 extent depth"@)
    } else if node.len() < 12 || le16(node, 0) != EXT4_EXTENT_MAGIC {
        fail("invalid ext4 extent node"@)
    } else {
        extents_from(d, bs, node, depth, 0, least((node.len() - 12) / 12, entries))
    }
}

/// The extents below one entry of a node.
pub open spec fn entry_extents(d: Seq<u8>, bs: int, node: Seq<u8>, depth: int, i: int) -> Result<
    Seq<Extent>,
    Fault,
>
    decreases depth, 0int, 0int,
{
    let at = 12 + i * 12;
    if depth <= 0 {
        Ok(seq![leaf_extent(node, at)])
    } else {
        let physical = le32(node, at + 4) + 0x1_0000_0000 * le16(node, at + 8);
        match disk_read(d, physical * bs, bs) {
            Err(e) => Err(e),
            Ok(child) => if le16(child, 6) >= depth {
                fail("invalid ext4 extent depth"@)
            } else {
                extents_of(d, bs, child, le16(child, 6) as int, le16(child, 2) as int)
            },
        }
    }
}

/// The extents below the entries of a node from `i` on.
pub open spec fn extents_from(
    d: Seq<u8>,
    bs: int,
    node: Seq<u8>,
    depth: int,
    i: int,
    count: int,
) -> Result<Seq<Extent>, Fault>
    decreases depth, 0int, 1 + count - i,
{
    if i >= count {
        Ok(Seq::empty())
    } else {
        match entry_extents(d, bs, node, depth, i) {
            Err(e) => Err(e),
            Ok(first) => match extents_from(d, bs, node, depth, i + 1, count) {
                Err(e) => Err(e),
                Ok(rest) => Ok(first + rest),
            },
        }
    }
}

/// Append the extents below one entry of `node`.
fn collect_entry<S: ByteSource>(
    sb: &Superblock,
    image: &Image<S>,
    node: &[u8],
    depth: u16,
    index: usize,
    extents: &mut Vec<Extent>,
) -> (r: Result<(), Error>)
    requires
        image.wf(),
        sb.wf(),
        24 + index * 12 <= node@.len(),
    ensures
        match r {
            Ok(_) => entry_extents(
                image.disk(),
                sb.block_size as int,
                node@,
                depth as int,
                index as int,
            ) matches Ok(found) && final(extents)@ == old(extents)@ + found,
            Err(e) => entry_extents(
                image.disk(),
                sb.block_size as int,
                node@,
                depth as int,
                index as int,
            ) == Err::<Seq<Extent>, Fault>(e@) || (image.faulty() && e is Io),
        },
    decreases depth, 0int,
{
    assert(node.len() == node@.len());
    let off = 12 + index * 12;
    if depth == 0 {
        let raw_len = get16(node, off + 4);
        let extent = Extent {
            logical_block: get32(node, off) as u64,
            physical_block: get32(node, off + 8) as u64 + 0x1_0000_0000 * (get16(node, off + 6)
                as u64),
            length: (raw_len % 0x8000) as u64,
            unwritten: raw_len >= 0x8000,
        };
        extents.push(extent);
        assert(extents@ =~= old(extents)@ + seq![extent]);
        Ok(())
    } else {
        let physical = get32(node, off + 4) as u64 + 0x1_0000_0000 * (get16(node, off + 8) as u64);
        let at = match physical.checked_mul(sb.block_size) {
            Some(v) => v,
            None => {
                return Err(Error::invalid("read range overflow"));
            },
        };
        let child = image.read_at(at, sb.block_size as usize)?;
        let child_entries = get16(&child, 2) as usize;
        let child_depth = get16(&child, 6);
        if child_depth >= depth {
            return Err(Error::invalid("invalid ext4 extent depth"));
        }
        collect_extents(sb, image, &child, child_depth, child_entries, extents)
    }
}

/// Append the extents below `node` to `extents`.
pub fn collect_extents<S: ByteSource>(
    sb: &Superblock,
    image: &Image<S>,
    node: &[u8],
    depth: u16,
    entries: usize,
    extents: &mut Vec<Extent>,
) -> (r: Result<(), Error>)
    requires
        image.wf(),
        sb.wf(),
    ensures
        match r {
            Ok(_) => extents_of(
                image.disk(),
                sb.block_size as int,
                node@,
                depth as int,
                entries as int,
            ) matches Ok(found) && final(extents)@ == old(extents)@ + found,
            Err(e) => extents_of(
                image.disk(),
                sb.block_size as int,
                node@,
                depth as int,
                entries as int,
            ) == Err::<Seq<Extent>, Fault>(e@) || (image.faulty() && e is Io),
        },
    decreases depth, 1int,
{
    if depth > 16 {
        return Err(Error::invalid("invalid ext4 extent depth"));
    }
    if node.len() < 12 || get16(node, 0) != EXT4_EXTENT_MAGIC {
        return Err(Error::invalid("invalid ext4 extent node"));
    }
    let fit = (node.len() - 12) / 12;
    let count = if fit < entries {
        fit
    } else {
        entries
    };
    let ghost d = image.disk();
    let ghost bs = sb.block_size as int;
    let ghost whole = extents_from(d, bs, node@, depth as int, 0, count as int);
    let ghost mut found: Seq<Extent> = Seq::empty();
    assert(old(extents)@ + found =~= old(extents)@);
    proof {
        if let Ok(rest) = whole {
            assert(found + rest =~= rest);
        }
    }
    let mut index: usize = 0;
    while index < count
        invariant
            index <= count,
            count <= (node.len() - 12) / 12,
            node.len() >= 12,
            image.wf(),
            sb.wf(),
            d == image.disk(),
            bs == sb.block_size,
            extents@ == old(extents)@ + found,
            whole == (match extents_from(d, bs, node@, depth as int, index as int, count as int) {
                Err(e) => Err(e),
                Ok(rest) => Ok(found + rest),
            }),
            whole == extents_of(d, bs, node@, depth as int, entries as int),
        decreases count - index,
    {
        collect_entry(sb, image, node, depth, index, extents)?;
        proof {
            let sub = entry_extents(d, bs, node@, depth as int, index as int)->Ok_0;
            let before = found;
            found = before + sub;
            assert(extents@ =~= old(extents)@ + found);
            if let Ok(rest) = extents_from(
                d,
                bs,
                node@,
                depth as int,
                index + 1,
                count as int,
            ) {
                assert(before + (sub + rest) =~= found + rest);
            }
        }
        index += 1;
    }
    assert(found + Seq::<Extent>::empty() =~= found);
    Ok(())
}

/// Where the extents of an inode start: number of entries and depth.
pub open spec fn extent_root(inode: InodeView) -> Result<(int, int), Fault> {
    if inode.flags & 0x80000 == 0 {
        fail("only ext4 extent inodes are supported"@)
    } else if le16(inode.block, 0) != EXT4_EXTENT_MAGIC {
        fail("invalid ext4 extent header"@)
    } else {
        Ok((le16(inode.block, 2) as int, le16(inode.block, 6) as int))
    }
}

/// All extents of an inode.
pub open spec fn inode_extents(d: Seq<u8>, bs: int, inode: InodeView) -> Result<Seq<Extent>, Fault> {
    match extent_root(inode) {
        Err(e) => Err(e),
        Ok((entries, depth)) => extents_of(d, bs, inode.block, depth, entries),
    }
}

fn check_extent_inode(inode: &Ext4Inode) -> (r: Result<(usize, u16), Error>)
    ensures
        match r {
            Ok((entries, depth)) => extent_root(inode@) == Ok::<(int, int), Fault>(
                (entries as int, depth as int),
            ),
            Err(e) => extent_root(inode@) == Err::<(int, int), Fault>(e@),
        },
{
    if inode.flags & 0x80000 == 0 {
        return Err(Error::invalid("only ext4 extent inodes are supported"));
    }
    if get16(&inode.block, 0) != EXT4_EXTENT_MAGIC {
        return Err(Error::invalid("invalid ext4 extent header"));
    }
    Ok((get16(&inode.block, 2) as usize, get16(&inode.block, 6)))
}

/// All extents of an inode, in the order of its tree.
pub fn file_extents<S: ByteSource>(sb: &Superblock, image: &Image<S>, inode: &Ext4Inode) -> (r:
    Result<Vec<Extent>, Error>)
    requires
        image.wf(),
        sb.wf(),
    ensures
        told(image.faulty(), r, inode_extents(image.disk(), sb.block_size as int, inode@)),
{
    let (entries, depth) = check_extent_inode(inode)?;
    let mut extents: Vec<Extent> = Vec::new();
    collect_extents(sb, image, &inode.block, depth, entries, &mut extents)?;
    proof {
        let found = inode_extents(image.disk(), sb.block_size as int, inode@)->Ok_0;
        assert(Seq::<Extent>::empty() + found =~= found);
    }
    Ok(extents)
}

// ---------------------------------------------------------------------
// File data
// ---------------------------------------------------------------------
/// Whether the target of a symbolic link stands in the inode itself.
pub open spec fn inline_link(inode: InodeView) -> bool {
    inode.mode & 0xf000 == 0xa000 && inode.size <= 60
}

/// `data` with the bytes of one extent put in place.
pub open spec fn with_extent(d: Seq<u8>, bs: int, e: Extent, data: Seq<u8>) -> Result<
    Seq<u8>,
    Fault,
> {
    let dest = e.logical_block * bs;
    if dest > u64::MAX {
        fail("extent destination overflow"@)
    } else if dest >= data.len() || e.unwritten {
        Ok(data)
    } else if e.length * bs > u64::MAX {
        fail("extent length overflow"@)
    } else if e.physical_block * bs > u64::MAX {
        fail("extent physical offset overflow"@)
    } else {
        match disk_read(d, e.physical_block * bs, least(e.length * bs, data.len() - dest)) {
            Err(x) => Err(x),
            Ok(x) => Ok(splice(data, dest, x)),
        }
    }
}

/// `data` with the bytes of all extents put in place, one after the other.
pub open spec fn with_extents(d: Seq<u8>, bs: int, extents: Seq<Extent>, data: Seq<u8>) -> Result<
    Seq<u8>,
    Fault,
>
    decreases extents.len(),
{
    if extents.len() == 0 {
        Ok(data)
    } else {
        match with_extent(d, bs, extents[0], data) {
            Err(e) => Err(e),
            Ok(data) => with_extents(d, bs, extents.drop_first(), data),
        }
    }
}

/// The first `limit` bytes of a file; holes and unwritten extents are zero.
pub open spec fn prefix_of(d: Seq<u8>, bs: int, inode: InodeView, limit: int) -> Result<
    Seq<u8>,
    Fault,
> {
    let size = least(inode.size as int, limit);
    if size > usize::MAX {
        fail("file is too large"@)
    } else if inline_link(inode) {
        Ok(inode.block.subrange(0, size))
    } else if size == 0 {
        Ok(Seq::empty())
    } else {
        match inode_extents(d, bs, inode) {
            Err(e) => Err(e),
            Ok(extents) => with_extents(d, bs, extents, zeros(size)),
        }
    }
}

/// The content of a file.
pub open spec fn data_of(d: Seq<u8>, bs: int, inode: InodeView) -> Result<Seq<u8>, Fault> {
    if inode.size > MAX_FILE_BUFFER {
        fail("file is too large"@)
    } else {
        prefix_of(d, bs, inode, inode.size as int)
    }
}

fn place_extent<S: ByteSource>(
    sb: &Superblock,
    image: &Image<S>,
    extent: &Extent,
    data: &mut Vec<u8>,
) -> (r: Result<(), Error>)
    requires
        image.wf(),
        sb.wf(),
    ensures
        match r {
            Ok(_) => with_extent(image.disk(), sb.block_size as int, *extent, old(data)@) == Ok::<
                Seq<u8>,
                Fault,
            >(final(data)@),
            Err(e) => with_extent(image.disk(), sb.block_size as int, *extent, old(data)@) == Err::<
                Seq<u8>,
                Fault,
            >(e@) || (image.faulty() && e is Io),
        },
{
    let size = data.len() as u64;
    assert(extent.logical_block * sb.block_size >= 0) by (nonlinear_arith);
    assert(extent.length * sb.block_size >= 0) by (nonlinear_arith);
    assert(extent.physical_block * sb.block_size >= 0) by (nonlinear_arith);
    let dest = match extent.logical_block.checked_mul(sb.block_size) {
        Some(v) => v,
        None => {
            return Err(Error::invalid("extent destination overflow"));
        },
    };
    if dest >= size || extent.unwritten {
        return Ok(());
    }
    let length = match extent.length.checked_mul(sb.block_size) {
        Some(v) => v,
        None => {
            return Err(Error::invalid("extent length overflow"));
        },
    };
    let count = if length < size - dest {
        length
    } else {
        size - dest
    };
    let physical = match extent.physical_block.checked_mul(sb.block_size) {
        Some(v) => v,
        None => {
            return Err(Error::invalid("extent physical offset overflow"));
        },
    };
    let x = image.read_at(physical, count as usize)?;
    put(data, dest as usize, &x);
    Ok(())
}

/// Prefix read up to `limit` (content sniffing without loading big files).
pub fn read_prefix<S: ByteSource>(
    sb: &Superblock,
    image: &Image<S>,
    inode: &Ext4Inode,
    limit: u64,
) -> (r: Result<Vec<u8>, Error>)
    requires
        image.wf(),
        sb.wf(),
    ensures
        told(
            image.faulty(),
            r,
            prefix_of(image.disk(), sb.block_size as int, inode@, limit as int),
        ),
{
    let wanted = if inode.size < limit {
        inode.size
    } else {
        limit
    };
    if wanted > usize::MAX as u64 {
        return Err(Error::invalid("file is too large"));
    }
    let size = wanted as usize;
    if inode.mode & 0xf000 == 0xa000 && inode.size <= 60 {
        return Ok(crate::buf::copy_range(&inode.block, 0, size));
    }
    let mut data = zeroed(size);
    if size == 0 {
        assert(data@ =~= Seq::empty());
        return Ok(data);
    }
    let extents = file_extents(sb, image, inode)?;
    let ghost d = image.disk();
    let ghost bs = sb.block_size as int;
    let mut i: usize = 0;
    assert(extents@.skip(0) =~= extents@);
    while i < extents.len()
        invariant
            i <= extents.len(),
            image.wf(),
            sb.wf(),
            d == image.disk(),
            bs == sb.block_size,
            with_extents(d, bs, extents@, zeros(size as int)) == with_extents(
                d,
                bs,
                extents@.skip(i as int),
                data@,
            ),
            prefix_of(d, bs, inode@, limit as int) == with_extents(
                d,
                bs,
                extents@,
                zeros(size as int),
            ),
        decreases extents.len() - i,
    {
        proof {
            let tail = extents@.skip(i as int);
            assert(tail[0] == extents@[i as int]);
            assert(tail.drop_first() =~= extents@.skip(i + 1));
        }
        place_extent(sb, image, &extents[i], &mut data)?;
        i += 1;
    }
    Ok(data)
}

/// Full file read; holes and unwritten extents are zero.
pub fn read_data<S: ByteSource>(sb: &Superblock, image: &Image<S>, inode: &Ext4Inode) -> (r: Result<
    Vec<u8>,
    Error,
>)
    requires
        image.wf(),
        sb.wf(),
    ensures
        told(image.faulty(), r, data_of(image.disk(), sb.block_size as int, inode@)),
{
    if inode.size > MAX_FILE_BUFFER {
        return Err(Error::invalid("file is too large"));
    }
    read_prefix(sb, image, inode, inode.size)
}

// ---------------------------------------------------------------------
// Streaming
// ---------------------------------------------------------------------
/// Where an extent goes among extents in logical order: behind those that
/// do not start after it.
pub open spec fn place(s: Seq<Extent>, e: Extent) -> int
    decreases s.len(),
{
    if s.len() == 0 || s.last().logical_block <= e.logical_block {
        s.len() as int
    } else {
        place(s.drop_last(), e)
    }
}

/// The extents in logical order; extents that start at the same block keep
/// their order.
pub open spec fn arranged(s: Seq<Extent>) -> Seq<Extent>
    decreases s.len(),
{
    if s.len() == 0 {
        s
    } else {
        let rest = arranged(s.drop_last());
        rest.insert(place(rest, s.last()), s.last())
    }
}

/// Where an extent goes is among the others.
pub proof fn place_in_range(s: Seq<Extent>, e: Extent)
    ensures
        0 <= place(s, e) <= s.len(),
        forall|k: int| place(s, e) <= k < s.len() ==> (#[trigger] s[k]).logical_block > e.logical_block,
        place(s, e) > 0 ==> s[place(s, e) - 1].logical_block <= e.logical_block,
    decreases s.len(),
{
    if s.len() > 0 && s.last().logical_block > e.logical_block {
        place_in_range(s.drop_last(), e);
        assert forall|k: int| place(s, e) <= k < s.len() implies (#[trigger] s[k]).logical_block
            > e.logical_block by {
            if k < s.len() - 1 {
                assert(s.drop_last()[k] == s[k]);
            }
        }
    }
}

/// Arranging keeps every extent and puts them in logical order.
pub proof fn arranged_is_sorted(s: Seq<Extent>)
    ensures
        arranged(s).to_multiset() == s.to_multiset(),
        arranged(s).len() == s.len(),
        forall|i: int, j: int|
            0 <= i <= j < s.len() ==> (#[trigger] arranged(s)[i]).logical_block <= (
            #[trigger] arranged(s)[j]).logical_block,
    decreases s.len(),
{
    broadcast use vstd::seq_lib::group_to_multiset_ensures;

    if s.len() > 0 {
        let init = s.drop_last();
        let rest = arranged(init);
        let e = s.last();
        arranged_is_sorted(init);
        place_in_range(rest, e);
        let p = place(rest, e);
        let t = arranged(s);
        assert(init.push(e) =~= s);
        assert forall|i: int, j: int| 0 <= i <= j < s.len() implies (
        #[trigger] t[i]).logical_block <= (#[trigger] t[j]).logical_block by {
            let a = if i < p {
                rest[i]
            } else if i == p {
                e
            } else {
                rest[i - 1]
            };
            let b = if j < p {
                rest[j]
            } else if j == p {
                e
            } else {
                rest[j - 1]
            };
            assert(t[i] == a && t[j] == b);
            if i < p && j == p {
                assert(rest[i].logical_block <= rest[p - 1].logical_block);
            }
        }
    }
}

/// Puts extents in logical order.
fn arrange(extents: &Vec<Extent>) -> (r: Vec<Extent>)
    ensures
        r@ == arranged(extents@),
{
    let mut out: Vec<Extent> = Vec::new();
    let mut i: usize = 0;
    assert(extents@.take(0) =~= Seq::empty());
    while i < extents.len()
        invariant
            i <= extents.len(),
            out@ == arranged(extents@.take(i as int)),
        decreases extents.len() - i,
    {
        let e = extents[i];
        let ghost have = out@;
        let mut at = out.len();
        assert(have.take(at as int) =~= have);
        while at > 0 && out[at - 1].logical_block > e.logical_block
            invariant
                at <= out.len(),
                out@ == have,
                place(have, e) == place(have.take(at as int), e),
            decreases at,
        {
            proof {
                let t = have.take(at as int);
                assert(t.last() == have[at - 1]);
                assert(t.drop_last() =~= have.take(at - 1));
            }
            at -= 1;
        }
        proof {
            let t = have.take(at as int);
            if at > 0 {
                assert(t.last() == have[at - 1]);
            }
            assert(place(have, e) == at);
            let n = extents@.take(i + 1);
            assert(n.drop_last() =~= extents@.take(i as int));
            assert(n.last() == e);
        }
        out.insert(at, e);
        i += 1;
    }
    assert(extents@.take(i as int) =~= extents@);
    out
}

/// The content of a file from `cursor` on, extents in logical order.
/// Gaps, unwritten extents and what no extent covers are zero; nothing is
/// given twice and nothing beyond the end of the file.
pub open spec fn stream_from(
    d: Seq<u8>,
    bs: int,
    size: int,
    extents: Seq<Extent>,
    cursor: int,
) -> Result<Seq<u8>, Fault>
    decreases extents.len(),
{
    if cursor >= size {
        Ok(Seq::empty())
    } else if extents.len() == 0 {
        Ok(zeros(size - cursor))
    } else {
        let e = extents[0];
        let start = e.logical_block * bs;
        let len = e.length * bs;
        let from = least(greatest(start, cursor), size);
        let end = greatest(from, least(start + len, size));
        if start > u64::MAX {
            fail("extent destination overflow"@)
        } else if len > u64::MAX {
            fail("extent length overflow"@)
        } else {
            match extent_body(d, bs, e, from - start, end - from) {
                Err(e) => Err(e),
                Ok(x) => match stream_from(d, bs, size, extents.drop_first(), end) {
                    Err(e) => Err(e),
                    Ok(rest) => Ok(zeros(from - cursor) + x + rest),
                },
            }
        }
    }
}

/// `n` bytes of an extent, `skip` bytes after its start.
pub open spec fn extent_body(d: Seq<u8>, bs: int, e: Extent, skip: int, n: int) -> Result<
    Seq<u8>,
    Fault,
> {
    if e.unwritten || n <= 0 {
        Ok(zeros(n))
    } else if e.physical_block * bs > u64::MAX {
        fail("extent physical offset overflow"@)
    } else if e.physical_block * bs + skip > u64::MAX {
        fail("read range overflow"@)
    } else {
        pieces(d, e.physical_block * bs + skip, n)
    }
}

/// What streaming a file yields.
pub open spec fn streamed(d: Seq<u8>, bs: int, inode: InodeView) -> Result<Seq<u8>, Fault> {
    if inode.size == 0 {
        Ok(Seq::empty())
    } else if inline_link(inode) {
        Ok(inode.block.subrange(0, inode.size as int))
    } else {
        match inode_extents(d, bs, inode) {
            Err(e) => Err(e),
            Ok(extents) => stream_from(d, bs, inode.size as int, arranged(extents), 0),
        }
    }
}

fn stream_body<S: ByteSource, O: ByteSink>(
    sb: &Superblock,
    image: &Image<S>,
    e: &Extent,
    skip: u64,
    n: u64,
    out: &mut O,
) -> (r: Result<(), Error>)
    requires
        image.wf(),
        sb.wf(),
    ensures
        final(out).full() == old(out).full(),
        match r {
            Ok(_) => extent_body(
                image.disk(),
                sb.block_size as int,
                *e,
                skip as int,
                n as int,
            ) matches Ok(x) && final(out).written() == old(out).written() + x,
            Err(x) => extent_body(
                image.disk(),
                sb.block_size as int,
                *e,
                skip as int,
                n as int,
            ) == Err::<Seq<u8>, Fault>(x@) || (x is Io && (image.faulty() || old(out).full())),
        },
{
    if e.unwritten || n == 0 {
        return write_zeroes(out, n);
    }
    assert(e.physical_block * sb.block_size >= 0) by (nonlinear_arith);
    let physical = match e.physical_block.checked_mul(sb.block_size) {
        Some(v) => v,
        None => {
            return Err(Error::invalid("extent physical offset overflow"));
        },
    };
    let at = match physical.checked_add(skip) {
        Some(v) => v,
        None => {
            return Err(Error::invalid("read range overflow"));
        },
    };
    stream_range(image, at, n, out)
}

/// Streaming read (holes, unwritten extents and gaps are zero), so that
/// large files never need a full in-memory copy.
#[verifier::rlimit(60)]
#[verifier::spinoff_prover]
pub fn write_data<S: ByteSource, O: ByteSink>(
    sb: &Superblock,
    image: &Image<S>,
    inode: &Ext4Inode,
    out: &mut O,
) -> (r: Result<(), Error>)
    requires
        image.wf(),
        sb.wf(),
    ensures
        final(out).full() == old(out).full(),
        match r {
            Ok(_) => streamed(image.disk(), sb.block_size as int, inode@) matches Ok(x) && final(
            out).written() == old(out).written() + x,
            Err(e) => streamed(image.disk(), sb.block_size as int, inode@) == Err::<Seq<u8>, Fault>(
                e@,
            ) || (e is Io && (image.faulty() || old(out).full())),
        },
{
    if inode.size == 0 {
        assert(old(out).written() + Seq::<u8>::empty() =~= old(out).written());
        return Ok(());
    }
    if inode.mode & 0xf000 == 0xa000 && inode.size <= 60 {
        return out.write(&inode.block[0..inode.size as usize]);
    }
    let found = file_extents(sb, image, inode)?;
    let extents = arrange(&found);
    let ghost d = image.disk();
    let ghost bs = sb.block_size as int;
    let size = inode.size;
    let ghost whole = stream_from(d, bs, size as int, extents@, 0);
    let ghost mut got: Seq<u8> = Seq::empty();
    let mut cursor: u64 = 0;
    let mut i: usize = 0;
    assert(extents@.skip(0) =~= extents@);
    assert(old(out).written() + got =~= old(out).written());
    proof {
        if let Ok(rest) = whole {
            assert(got + rest =~= rest);
        }
    }
    while i < extents.len() && cursor < size
        invariant
            i <= extents.len(),
            cursor <= size,
            image.wf(),
            sb.wf(),
            d == image.disk(),
            bs == sb.block_size,
            whole == streamed(d, bs, inode@),
            out.full() == old(out).full(),
            out.written() == old(out).written() + got,
            whole == (match stream_from(
                d,
                bs,
                size as int,
                extents@.skip(i as int),
                cursor as int,
            ) {
                Err(e) => Err(e),
                Ok(rest) => Ok(got + rest),
            }),
        decreases extents.len() - i,
    {
        let e = extents[i];
        let ghost tail = extents@.skip(i as int);
        proof {
            assert(tail[0] == e);
            assert(tail.drop_first() =~= extents@.skip(i + 1));
            assert(e.logical_block * bs >= 0) by (nonlinear_arith)
                requires
                    bs >= 0,
            ;
            assert(e.length * bs >= 0) by (nonlinear_arith)
                requires
                    bs >= 0,
            ;
        }
        let start = match e.logical_block.checked_mul(sb.block_size) {
            Some(v) => v,
            None => {
                return Err(Error::invalid("extent destination overflow"));
            },
        };
        let len = match e.length.checked_mul(sb.block_size) {
            Some(v) => v,
            None => {
                return Err(Error::invalid("extent length overflow"));
            },
        };
        let reach = start.saturating_add(len);
        let clipped = if start < size {
            start
        } else {
            size
        };
        let from = if clipped < cursor {
            cursor
        } else {
            clipped
        };
        let stop = if reach < size {
            reach
        } else {
            size
        };
        let end = if stop < from {
            from
        } else {
            stop
        };
        match write_zeroes(out, from - cursor) {
            Ok(_) => {},
            Err(x) => {
                return Err(x);
            },
        }
        let skip = if from < start {
            0
        } else {
            from - start
        };
        assert(end > from ==> skip == from - start);
        match stream_body(sb, image, &e, skip, end - from, out) {
            Ok(_) => {},
            Err(x) => {
                return Err(x);
            },
        }
        proof {
            let before = got;
            let x = extent_body(d, bs, e, from - start, end - from)->Ok_0;
            got = before + (zeros(from - cursor) + x);
            assert(out.written() =~= old(out).written() + got);
            if let Ok(rest) = stream_from(d, bs, size as int, extents@.skip(i + 1), end as int) {
                assert(before + (zeros(from - cursor) + x + rest) =~= got + rest);
            }
        }
        cursor = end;
        i += 1;
    }
    match write_zeroes(out, size - cursor) {
        Ok(_) => {},
        Err(e) => {
            return Err(e);
        },
    }
    proof {
        assert(zeros(0) =~= Seq::empty());
        if cursor < size {
            assert(extents@.skip(i as int) =~= Seq::empty());
        }
        assert(out.written() =~= old(out).written() + (got + zeros(size - cursor)));
    }
    Ok(())
}

} // verus!
