//! The `security.selinux` attribute of ext4 inodes.
use crate::buf::{get16, get32, le16, le32};
use crate::math::align_up;
use crate::text::{from_utf8_lossy, text_of, opt_text, same_bytes, trim_both, trim_nul};
use vstd::prelude::*;

verus! {

/// The magic in front of extended attributes.
pub const XATTR_MAGIC: u32 = 0xea02_0000;

/// The name index of `security.*` attributes.
pub const INDEX_SECURITY: u8 = 6;

/// The bytes of the name `selinux`.
pub open spec fn selinux_name() -> Seq<u8> {
    seq![115u8, 101, 108, 105, 110, 117, 120]
}

/// Whether `name` spells `selinux`.
pub fn is_selinux_name(name: &[u8]) -> (b: bool)
    ensures
        b == (name@ == selinux_name()),
{
    let wanted: [u8; 7] = [115, 101, 108, 105, 110, 117, 120];
    assert(wanted@ =~= selinux_name());
    same_bytes(name, &wanted)
}

/// The label that the attribute entries from `offset` on hold, values
/// counted from `base`.
pub open spec fn label_from(x: Seq<u8>, offset: int, base: int) -> Option<Seq<char>>
    decreases x.len() + 4 - offset,
{
    let name_end = offset + 16 + x[offset];
    let value = base + le16(x, offset + 2);
    let value_end = value + le32(x, offset + 8);
    if offset < 0 || offset + 16 > x.len() || x[offset] == 0 || name_end > x.len() {
        None
    } else if x[offset + 1] == INDEX_SECURITY && x.subrange(offset + 16, name_end) == selinux_name()
        && le32(x, offset + 4) == 0 && value_end <= x.len() {
        Some(trim_both(text_of(x.subrange(value, value_end))))
    } else {
        proof {
            crate::math::ceil_div_covers(name_end, 4);
        }
        label_from(x, align_up(name_end, 4), base)
    }
}

/// The label in an inode body: entries start right after the 4-byte magic
/// behind the extra fields, and values are counted from the same place.
pub open spec fn inode_label(x: Seq<u8>) -> Option<Seq<char>> {
    let start = 128 + le16(x, 128);
    if x.len() < 130 || start + 4 > x.len() || le32(x, start) != XATTR_MAGIC {
        None
    } else {
        label_from(x, start + 4, start + 4)
    }
}

/// The label in an attribute block: entries follow the 32-byte header and
/// values are counted from the start of the block.
pub open spec fn block_label(x: Seq<u8>) -> Option<Seq<char>> {
    if x.len() < 32 || le32(x, 0) != XATTR_MAGIC {
        None
    } else {
        label_from(x, 32, 0)
    }
}

fn find_label(x: &[u8], first: usize, base: usize) -> (r: Option<String>)
    requires
        first <= x@.len(),
        base <= x@.len(),
    ensures
        opt_text(r) == label_from(x@, first as int, base as int),
{
    let mut offset = first;
    while offset <= x.len() && x.len() - offset >= 16
        invariant
            base <= x@.len(),
            label_from(x@, first as int, base as int) == label_from(x@, offset as int, base as int),
        decreases x@.len() + 4 - offset,
    {
        let name_length = x[offset] as usize;
        if name_length == 0 {
            return None;
        }
        if x.len() - offset - 16 < name_length {
            return None;
        }
        let name_end = offset + 16 + name_length;
        let value_offset = get16(x, offset + 2) as u64;
        let value_block = get32(x, offset + 4);
        let value_size = get32(x, offset + 8) as u64;
        if x[offset + 1] == INDEX_SECURITY && is_selinux_name(&x[offset + 16..name_end])
            && value_block == 0 {
            let room = (x.len() - base) as u64;
            if value_offset + value_size <= room {
                let from = base + value_offset as usize;
                let to = from + value_size as usize;
                let text = from_utf8_lossy(&x[from..to]);
                return Some(trim_nul(text.as_str()));
            }
        }
        proof {
            crate::math::ceil_div_covers(name_end as int, 4);
        }
        if x.len() - name_end < 16 {
            assert(label_from(x@, align_up(name_end as int, 4), base as int) is None);
            return None;
        }
        offset = if name_end % 4 == 0 {
            name_end
        } else {
            name_end / 4 * 4 + 4
        };
    }
    None
}

/// Extract `security.selinux` from an ext4 inode body, if present.
pub fn read_selinux_context(inode: &[u8]) -> (r: Option<String>)
    ensures
        opt_text(r) == inode_label(inode@),
{
    if inode.len() < 130 {
        return None;
    }
    let start = 128 + get16(inode, 128) as usize;
    if inode.len() < 4 || start > inode.len() - 4 {
        return None;
    }
    if get32(inode, start) != XATTR_MAGIC {
        return None;
    }
    find_label(inode, start + 4, start + 4)
}

/// Extract `security.selinux` from an ext4 attribute block, if present.
pub fn read_selinux_from_block(block: &[u8]) -> (r: Option<String>)
    ensures
        opt_text(r) == block_label(block@),
{
    if block.len() < 32 {
        return None;
    }
    if get32(block, 0) != XATTR_MAGIC {
        return None;
    }
    find_label(block, 32, 0)
}

} // verus!
