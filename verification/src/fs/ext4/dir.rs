//! ext4 directories.
use super::inode::{self, data_of, inode_of, Ext4Inode, InodeView};
use super::{Superblock, EXT4_DIRECTORY};
use crate::buf::{get16, get32, le16, le32};
use crate::error::{fail, told, Error, Fault};
use crate::fs::{DirEntry, EntryView};
use crate::image::{ByteSource, Image};
use crate::text::{copy_opt, from_utf8_lossy, text_of};
use vstd::prelude::*;

verus! {

/// An entry of a directory.
#[derive(Debug, Clone)]
pub struct DirEntryRaw {
    pub inode: u32,
    pub file_type: u8,
    pub name: String,
}

/// The mathematical counterpart of [`DirEntryRaw`].
#[verifier::ext_equal]
pub struct RawView {
    pub inode: u32,
    pub file_type: u8,
    pub name: Seq<char>,
}

impl View for DirEntryRaw {
    type V = RawView;

    open spec fn view(&self) -> RawView {
        RawView { inode: self.inode, file_type: self.file_type, name: self.name@ }
    }
}

/// The views of a sequence of entries.
pub open spec fn raw_views(s: Seq<DirEntryRaw>) -> Seq<RawView> {
    s.map_values(|e: DirEntryRaw| e@)
}

/// The entries of the records from `offset` on.
pub open spec fn entries_from(x: Seq<u8>, offset: int) -> Result<Seq<RawView>, Fault>
    decreases x.len() - offset,
{
    let len = le16(x, offset + 4);
    let name_len = x[offset + 6];
    if offset + 8 > x.len() {
        Ok(Seq::empty())
    } else if len < 8 || offset + len > x.len() {
        fail("invalid directory record"@)
    } else {
        match entries_from(x, offset + len) {
            Err(e) => Err(e),
            Ok(rest) => if le32(x, offset) != 0 && 8 + name_len <= len {
                Ok(
                    seq![
                        RawView {
                            inode: le32(x, offset),
                            file_type: x[offset + 7],
                            name: text_of(x.subrange(offset + 8, offset + 8 + name_len)),
                        },
                    ] + rest,
                )
            } else {
                Ok(rest)
            },
        }
    }
}

/// The entries of a directory.
pub open spec fn entries_of(sb: Superblock, d: Seq<u8>, number: int) -> Result<Seq<RawView>, Fault> {
    match inode_of(sb, d, number) {
        Err(e) => Err(e),
        Ok(node) => if node.mode & EXT4_DIRECTORY == 0 {
            fail("path is not a directory"@)
        } else {
            match data_of(d, sb.block_size as int, node) {
                Err(e) => Err(e),
                Ok(data) => entries_from(data, 0),
            }
        },
    }
}

/// Parse directory data into its live entries.
pub fn parse(data: &[u8]) -> (r: Result<Vec<DirEntryRaw>, Error>)
    ensures
        match r {
            Ok(v) => entries_from(data@, 0) == Ok::<Seq<RawView>, Fault>(raw_views(v@)),
            Err(e) => entries_from(data@, 0) == Err::<Seq<RawView>, Fault>(e@),
        },
{
    let mut entries: Vec<DirEntryRaw> = Vec::new();
    let mut offset: usize = 0;
    proof {
        if let Ok(rest) = entries_from(data@, 0) {
            assert(raw_views(entries@) + rest =~= rest);
        }
    }
    while data.len() >= 8 && offset <= data.len() - 8
        invariant
            offset <= data@.len(),
            entries_from(data@, 0) == (match entries_from(data@, offset as int) {
                Err(e) => Err(e),
                Ok(rest) => Ok(raw_views(entries@) + rest),
            }),
        decreases data@.len() - offset,
    {
        let ghost before = raw_views(entries@);
        let number = get32(data, offset);
        let record_len = get16(data, offset + 4) as usize;
        let name_len = data[offset + 6] as usize;
        let file_type = data[offset + 7];
        if record_len < 8 || record_len > data.len() - offset {
            return Err(Error::invalid("invalid directory record"));
        }
        if number != 0 && 8 + name_len <= record_len {
            let name = from_utf8_lossy(&data[offset + 8..offset + 8 + name_len]);
            entries.push(DirEntryRaw { inode: number, file_type, name });
        }
        proof {
            if let Ok(rest) = entries_from(data@, offset + record_len) {
                if number != 0 && 8 + name_len <= record_len {
                    let v = entries@.last()@;
                    assert(raw_views(entries@) =~= before.push(v));
                    assert(before + (seq![v] + rest) =~= raw_views(entries@) + rest);
                }
            }
        }
        offset = offset + record_len;
    }
    assert(raw_views(entries@) + Seq::<RawView>::empty() =~= raw_views(entries@));
    Ok(entries)
}

/// The entries of a directory.
pub fn read<S: ByteSource>(sb: &Superblock, image: &Image<S>, inode_number: u32) -> (r: Result<
    Vec<DirEntryRaw>,
    Error,
>)
    requires
        image.wf(),
        sb.wf(),
    ensures
        match r {
            Ok(v) => entries_of(*sb, image.disk(), inode_number as int) == Ok::<
                Seq<RawView>,
                Fault,
            >(raw_views(v@)),
            Err(e) => entries_of(*sb, image.disk(), inode_number as int) == Err::<
                Seq<RawView>,
                Fault,
            >(e@) || (image.faulty() && e is Io),
        },
{
    let node = inode::read(sb, image, inode_number)?;
    if node.mode & EXT4_DIRECTORY == 0 {
        return Err(Error::invalid("path is not a directory"));
    }
    let data = inode::read_data(sb, image, &node)?;
    parse(&data)
}

/// What materialising an entry yields.
pub open spec fn stat_of(sb: Superblock, d: Seq<u8>, raw: RawView) -> Result<
    (EntryView, InodeView),
    Fault,
> {
    match inode_of(sb, d, raw.inode as int) {
        Err(e) => Err(e),
        Ok(node) => Ok(
            (
                EntryView {
                    name: raw.name,
                    file_type: raw.file_type,
                    mode: node.mode,
                    uid: node.uid,
                    gid: node.gid,
                    size: node.size,
                    context: node.context,
                },
                node,
            ),
        ),
    }
}

/// Materialize one directory entry, with the parsed inode.
pub fn stat<S: ByteSource>(sb: &Superblock, image: &Image<S>, raw: &DirEntryRaw) -> (r: Result<
    (DirEntry, Ext4Inode),
    Error,
>)
    requires
        image.wf(),
        sb.wf(),
    ensures
        told(image.faulty(), r, stat_of(*sb, image.disk(), raw@)),
{
    let node = inode::read(sb, image, raw.inode)?;
    Ok(
        (
            DirEntry {
                name: raw.name.clone(),
                file_type: raw.file_type,
                mode: node.mode,
                uid: node.uid,
                gid: node.gid,
                size: node.size,
                context: copy_opt(&node.context),
            },
            node,
        ),
    )
}

} // verus!
