//! EROFS directories.
use super::inode::{self, data_of, inode_of, Inode};
use super::xattr::{self, selinux_of};
use super::{Superblock, DIRECTORY};
use crate::buf::{get16, get64, le16, le64};
use crate::error::{fail, told, Error, Fault};
use crate::fs::{DirEntry, EntryView};
use crate::image::{ByteSource, Image};
use crate::math::least;
use crate::text::{dec, from_utf8_lossy, text_of, push_numeral, trim_end, trim_end_nul, with_number};
use vstd::prelude::*;

verus! {

/// An entry of a directory.
#[derive(Debug, Clone)]
pub struct DirEntryRaw {
    pub nid: u64,
    pub file_type: u8,
    pub name: String,
}

/// The mathematical counterpart of [`DirEntryRaw`].
#[verifier::ext_equal]
pub struct RawView {
    pub nid: u64,
    pub file_type: u8,
    pub name: Seq<char>,
}

impl View for DirEntryRaw {
    type V = RawView;

    open spec fn view(&self) -> RawView {
        RawView { nid: self.nid, file_type: self.file_type, name: self.name@ }
    }
}

/// The views of a sequence of entries.
pub open spec fn raw_views(s: Seq<DirEntryRaw>) -> Seq<RawView> {
    s.map_values(|e: DirEntryRaw| e@)
}

/// The entry of the given index in a directory block with `count` entries,
/// unless it is void.
pub open spec fn block_entry(x: Seq<u8>, count: int, i: int) -> Option<RawView> {
    let at = i * 12;
    let from = le16(x, at + 8);
    let to = if i + 1 < count {
        le16(x, at + 20) as int
    } else {
        x.len() as int
    };
    if le64(x, at) == 0 || from < le16(x, 8) || to < from || to > x.len() {
        None
    } else {
        Some(
            RawView {
                nid: le64(x, at),
                file_type: x[at + 10],
                name: trim_end(text_of(x.subrange(from as int, to))),
            },
        )
    }
}

/// The entries of a directory block from `i` on.
pub open spec fn block_entries(x: Seq<u8>, count: int, i: int) -> Seq<RawView>
    decreases count - i,
{
    if i >= count {
        Seq::empty()
    } else {
        (match block_entry(x, count, i) {
            Some(e) => seq![e],
            None => Seq::empty(),
        }) + block_entries(x, count, i + 1)
    }
}

/// The entries of the directory block of the given index.
pub open spec fn parsed_block(x: Seq<u8>, index: int) -> Result<Seq<RawView>, Fault> {
    let first = le16(x, 8);
    if x.len() < 12 || first == 0 {
        Ok(Seq::empty())
    } else if first < 12 || first > x.len() {
        fail(
            "invalid EROFS directory name offset in block "@ + dec(index) + ": "@ + dec(
                first as int,
            ),
        )
    } else {
        Ok(block_entries(x, first as int / 12, 0))
    }
}

/// The block of the given index (the last one may be short).
pub open spec fn dir_block(data: Seq<u8>, block_size: int, index: int) -> Seq<u8> {
    data.subrange(index * block_size, least((index + 1) * block_size, data.len() as int))
}

/// The entries of the directory blocks from `index` on.
pub open spec fn parsed_from(data: Seq<u8>, block_size: int, index: int) -> Result<
    Seq<RawView>,
    Fault,
>
    decreases data.len() - index * block_size,
{
    if block_size <= 0 || index * block_size >= data.len() {
        Ok(Seq::empty())
    } else {
        proof {
            assert((index + 1) * block_size == index * block_size + block_size) by (nonlinear_arith);
        }
        match parsed_block(dir_block(data, block_size, index), index) {
            Err(e) => Err(e),
            Ok(here) => match if (index + 1) * block_size >= data.len() {
                Ok(Seq::empty())
            } else {
                parsed_from(data, block_size, index + 1)
            } {
                Err(e) => Err(e),
                Ok(rest) => Ok(here + rest),
            },
        }
    }
}

/// The entries that directory data holds.
pub open spec fn parsed(data: Seq<u8>, block_size: int) -> Result<Seq<RawView>, Fault> {
    parsed_from(data, block_size, 0)
}

/// The entries of a directory.
pub open spec fn entries_of(fs: Superblock, d: Seq<u8>, nid: u64) -> Result<Seq<RawView>, Fault> {
    match inode_of(fs, d, nid) {
        Err(e) => Err(e),
        Ok(node) => if node.mode & DIRECTORY == 0 {
            fail("path is not a directory"@)
        } else {
            match data_of(fs, d, node) {
                Err(e) => Err(e),
                Ok(data) => parsed(data, fs.block_size as int),
            }
        },
    }
}

fn parse_block(block: &[u8], index: u64, out: &mut Vec<DirEntryRaw>) -> (r: Result<(), Error>)
    ensures
        match r {
            Ok(_) => parsed_block(block@, index as int) matches Ok(v) && raw_views(final(out)@)
                == raw_views(old(out)@) + v,
            Err(e) => parsed_block(block@, index as int) == Err::<Seq<RawView>, Fault>(e@),
        },
{
    let ghost x = block@;
    let ghost had = raw_views(out@);
    assert(had + Seq::<RawView>::empty() =~= had);
    if block.len() < 12 {
        return Ok(());
    }
    let first = get16(block, 8) as usize;
    if first == 0 {
        return Ok(());
    }
    if first < 12 || first > block.len() {
        let mut text = with_number(
            "invalid EROFS directory name offset in block ",
            index,
            ": ",
        );
        push_numeral(&mut text, first as u64, 10);
        return Err(Error::Invalid(text));
    }
    let count = first / 12;
    let ghost whole = block_entries(x, count as int, 0);
    let mut i: usize = 0;
    while i < count
        invariant
            i <= count,
            x == block@,
            count == first / 12,
            12 <= first <= block.len(),
            first == le16(x, 8),
            raw_views(out@) + block_entries(x, count as int, i as int) == had + whole,
        decreases count - i,
    {
        let ghost before = raw_views(out@);
        let at = i * 12;
        let nid = get64(block, at);
        let from = get16(block, at + 8) as usize;
        let to = if i + 1 < count {
            get16(block, at + 20) as usize
        } else {
            block.len()
        };
        if !(nid == 0 || from < first || to < from || to > block.len()) {
            let text = from_utf8_lossy(&block[from..to]);
            let name = trim_end_nul(text.as_str());
            out.push(DirEntryRaw { nid, file_type: block[at + 10], name });
            proof {
                assert(raw_views(out@) =~= before.push(out@.last()@));
            }
        }
        proof {
            let rest = block_entries(x, count as int, i + 1);
            match block_entry(x, count as int, i as int) {
                Some(e) => {
                    assert(out@.last()@ =~= e);
                    assert(before + (seq![e] + rest) =~= raw_views(out@) + rest);
                },
                None => {
                    assert(Seq::<RawView>::empty() + rest =~= rest);
                },
            }
        }
        i += 1;
    }
    assert(raw_views(out@) + Seq::<RawView>::empty() =~= raw_views(out@));
    Ok(())
}

/// Directory parser (also used by the write engine).
pub fn parse(data: &[u8], block_size: usize) -> (r: Result<Vec<DirEntryRaw>, Error>)
    requires
        block_size > 0,
    ensures
        match r {
            Ok(v) => parsed(data@, block_size as int) == Ok::<Seq<RawView>, Fault>(raw_views(v@)),
            Err(e) => parsed(data@, block_size as int) == Err::<Seq<RawView>, Fault>(e@),
        },
{
    let ghost bs = block_size as int;
    let mut out: Vec<DirEntryRaw> = Vec::new();
    let mut index: u64 = 0;
    let mut at: usize = 0;
    proof {
        assert(0 * bs == 0);
        if let Ok(rest) = parsed(data@, bs) {
            assert(raw_views(out@) + rest =~= rest);
        }
    }
    while at < data.len()
        invariant
            block_size > 0,
            bs == block_size,
            at < data.len() ==> at == index * bs,
            index <= at,
            at <= data.len(),
            parsed(data@, bs) == (match if at < data.len() {
                parsed_from(data@, bs, index as int)
            } else {
                Ok(Seq::empty())
            } {
                Err(e) => Err(e),
                Ok(rest) => Ok(raw_views(out@) + rest),
            }),
        decreases data.len() - at,
    {
        let ghost before = raw_views(out@);
        let end = if data.len() - at < block_size {
            data.len()
        } else {
            at + block_size
        };
        proof {
            assert((index + 1) * bs == index * bs + bs) by (nonlinear_arith);
            assert(data@.subrange(at as int, end as int) == dir_block(data@, bs, index as int));
        }
        parse_block(&data[at..end], index, &mut out)?;
        proof {
            let here = parsed_block(dir_block(data@, bs, index as int), index as int)->Ok_0;
            let tail = if end < data.len() {
                parsed_from(data@, bs, index + 1)
            } else {
                Ok(Seq::empty())
            };
            if let Ok(rest) = tail {
                assert(before + (here + rest) =~= raw_views(out@) + rest);
            }
        }
        at = end;
        if at < data.len() {
            index += 1;
        }
    }
    assert(raw_views(out@) + Seq::<RawView>::empty() =~= raw_views(out@));
    Ok(out)
}

/// The entries of a directory.
pub fn read<S: ByteSource>(fs: &Superblock, image: &Image<S>, nid: u64) -> (r: Result<
    Vec<DirEntryRaw>,
    Error,
>)
    requires
        image.wf(),
        fs.wf(),
    ensures
        match r {
            Ok(v) => entries_of(*fs, image.disk(), nid) == Ok::<Seq<RawView>, Fault>(
                raw_views(v@),
            ),
            Err(e) => entries_of(*fs, image.disk(), nid) == Err::<Seq<RawView>, Fault>(e@) || (
            image.faulty() && e is Io),
        },
{
    let node = inode::read(fs, image, nid)?;
    if node.mode & DIRECTORY == 0 {
        return Err(Error::invalid("path is not a directory"));
    }
    let data = inode::read_data(fs, image, &node)?;
    proof {
        let bits = choose|bits: nat|
            9 <= bits <= 20 && fs.block_size == #[trigger] vstd::arithmetic::power2::pow2(bits);
        super::block_size_bounds(bits);
    }
    parse(&data, fs.block_size as usize)
}

/// What materialising an entry yields.
pub open spec fn stat_of(fs: Superblock, d: Seq<u8>, raw: RawView, want_context: bool) -> Result<
    (EntryView, Inode),
    Fault,
> {
    match inode_of(fs, d, raw.nid) {
        Err(e) => Err(e),
        Ok(node) => match if want_context {
            selinux_of(fs, d, node)
        } else {
            Ok(None)
        } {
            Err(e) => Err(e),
            Ok(context) => Ok(
                (
                    EntryView {
                        name: raw.name,
                        file_type: raw.file_type,
                        mode: node.mode,
                        uid: node.uid,
                        gid: node.gid,
                        size: node.size,
                        context,
                    },
                    node,
                ),
            ),
        },
    }
}

/// Materialize one directory entry: a single inode read, and an attribute
/// lookup when `want_context`. Gives the parsed inode too.
pub fn stat<S: ByteSource>(
    fs: &Superblock,
    image: &Image<S>,
    raw: &DirEntryRaw,
    want_context: bool,
) -> (r: Result<(DirEntry, Inode), Error>)
    requires
        image.wf(),
        fs.wf(),
    ensures
        told(image.faulty(), r, stat_of(*fs, image.disk(), raw@, want_context)),
        r matches Ok((_, inode)) ==> inode.cluster_bits < 8,
{
    let node = inode::read(fs, image, raw.nid)?;
    let context = if want_context {
        xattr::selinux(fs, image, &node)?
    } else {
        None
    };
    Ok(
        (
            DirEntry {
                name: raw.name.clone(),
                file_type: raw.file_type,
                mode: node.mode,
                uid: node.uid,
                gid: node.gid,
                size: node.size,
                context,
            },
            node,
        ),
    )
}

} // verus!
