//! The compact index of compressed files and the clusters it names.
use super::codec::{decompress, decompressed};
use super::inode::Inode;
use super::Superblock;
use crate::buf::{get32, le32, put, splice};
use crate::error::{fail, told, Error, Fault};
use crate::image::{disk_read, ByteSource, Image};
use crate::math::{ceil_div, div_up, greatest, least, two_to};
use vstd::arithmetic::power2::pow2;
use vstd::prelude::*;

pub use super::lz4::lz4_decode;

verus! {

/// A cluster that is stored as it is.
pub const CLUSTER_TYPE_PLAIN: u8 = 0;

/// The head of a compressed cluster.
pub const CLUSTER_TYPE_HEAD1: u8 = 1;

/// A cluster that goes on with the one before it.
pub const CLUSTER_TYPE_NONHEAD: u8 = 2;

/// The head of a cluster with the other algorithm.
pub const CLUSTER_TYPE_HEAD2: u8 = 3;

/// Upper bound for a single decompressed cluster; anything larger is
/// corruption.
pub const MAX_PCLUSTER: usize = 67108864;

/// Most blocks of a single compressed cluster.
pub const MAX_CLUSTER_BLOCKS: u32 = 8192;

/// Largest compressed cluster that is read.
pub const MAX_CLUSTER_INPUT: u64 = 268435456;

/// Entry of the compact index.
#[derive(Debug, Clone, Copy)]
pub struct CompactEntry {
    pub lcn: u64,
    pub kind: u8,
    pub value: u32,
    pub pblk: u64,
}

/// Decoded index, shared by full and streaming readers.
pub struct CompactIndex {
    pub logical_block_size: u64,
    pub entries: Vec<CompactEntry>,
}

// ---------------------------------------------------------------------
// The compact index
// ---------------------------------------------------------------------
/// How the entries of an index are packed: `initial` entries of four bytes,
/// `middle` entries of two bytes, then entries of four bytes again.
#[verifier::ext_equal]
pub struct Packing {
    pub base: int,
    pub initial: int,
    pub middle: int,
}

/// The packing of the index of an inode with `total` logical clusters.
pub open spec fn packing(inode: Inode, total: int) -> Packing {
    let base = inode.data_offset + 8;
    let initial = if inode.advise % 2 == 1 && base % 32 != 0 {
        (32 - base % 32) / 4
    } else {
        0
    };
    Packing {
        base,
        initial,
        middle: if inode.advise % 2 == 1 && initial < total {
            (total - initial) / 16 * 16
        } else {
            0
        },
    }
}

/// Where the entry of a logical cluster stands, and its size in bytes.
pub open spec fn slot(p: Packing, lcn: int) -> (int, int) {
    if lcn < p.initial {
        (p.base + lcn * 4, 4)
    } else if lcn - p.initial < p.middle {
        (p.base + p.initial * 4 + (lcn - p.initial) * 2, 2)
    } else {
        (p.base + p.initial * 4 + p.middle * 2 + (lcn - p.initial - p.middle) * 4, 4)
    }
}

/// The size of the pack that holds entries of the given size.
pub open spec fn pack_size(entry_size: int) -> int {
    if entry_size == 4 {
        8
    } else {
        32
    }
}

/// The bits that an entry of the given size takes in its pack.
pub open spec fn entry_bits(entry_size: int) -> int {
    if entry_size == 4 {
        16
    } else {
        14
    }
}

/// The number of bits of an entry that hold its value.
pub open spec fn low_bits(block_bits: int, cluster_bits: int) -> int {
    greatest(block_bits + cluster_bits, 12)
}

/// The number of blocks that the clusters in front of entry `at` of a pack
/// take, the pack starting at entry `first`.
pub open spec fn blocks_before(
    entries: Seq<CompactEntry>,
    first: int,
    at: int,
    blocks: int,
    big: bool,
) -> int
    decreases greatest(at, 0),
{
    if at <= 0 {
        blocks
    } else {
        let previous = entries[first + at - 1];
        if previous.kind != CLUSTER_TYPE_NONHEAD {
            blocks_before(entries, first, at - 1, blocks + 1, big)
        } else if big && previous.value / 0x800 % 2 == 1 {
            blocks_before(entries, first, at - 2, blocks + (previous.value - 0x800), big)
        } else {
            blocks_before(entries, first, at - 1 - previous.value, blocks, big)
        }
    }
}

/// The entry of a logical cluster, those in front of it given.
pub open spec fn entry_at(
    d: Seq<u8>,
    p: Packing,
    block_bits: int,
    inode: Inode,
    before: Seq<CompactEntry>,
    lcn: int,
) -> Result<CompactEntry, Fault> {
    let (position, size) = slot(p, lcn);
    let pack = position / pack_size(size) * pack_size(size);
    let index = (position - pack) / size;
    let bit = index * entry_bits(size);
    let low = low_bits(block_bits, inode.cluster_bits as int);
    match disk_read(d, pack + bit / 8, 4) {
        Err(e) => Err(e),
        Ok(packed) => if low > 31 {
            fail("invalid EROFS cluster configuration"@)
        } else {
            match disk_read(d, pack + pack_size(size) - 4, 4) {
                Err(e) => Err(e),
                Ok(trailer) => {
                    let raw = le32(packed, 0) as int / pow2((bit % 8) as nat) as int;
                    let kind = (raw / pow2(low as nat) as int % 4) as u8;
                    let value = (raw % pow2(low as nat) as int) as u32;
                    let anchor = le32(trailer, 0) as int;
                    let big = inode.advise / 2 % 2 == 1;
                    if kind == CLUSTER_TYPE_NONHEAD {
                        Ok(CompactEntry { lcn: lcn as u64, kind, value, pblk: anchor as u64 })
                    } else if lcn < index {
                        fail("invalid EROFS compact index position"@)
                    } else {
                        let blocks = blocks_before(
                            before,
                            lcn - index,
                            index,
                            if big {
                                0
                            } else {
                                1
                            },
                            big,
                        );
                        Ok(
                            CompactEntry {
                                lcn: lcn as u64,
                                kind,
                                value,
                                pblk: (anchor + blocks) as u64,
                            },
                        )
                    }
                },
            }
        },
    }
}

/// The entries up to `total`, those in front of the next one given.
pub open spec fn entries_from(
    d: Seq<u8>,
    p: Packing,
    block_bits: int,
    inode: Inode,
    before: Seq<CompactEntry>,
    total: int,
) -> Result<Seq<CompactEntry>, Fault>
    decreases total - before.len(),
{
    if before.len() >= total {
        Ok(before)
    } else {
        match entry_at(d, p, block_bits, inode, before, before.len() as int) {
            Err(e) => Err(e),
            Ok(entry) => entries_from(d, p, block_bits, inode, before.push(entry), total),
        }
    }
}

/// The size of a logical cluster.
pub open spec fn cluster_size(fs: Superblock, inode: Inode) -> int {
    fs.block_size * pow2(inode.cluster_bits as nat)
}

/// The logarithm of the block size.
pub open spec fn bits_of(fs: Superblock) -> int {
    (choose|bits: nat| 9 <= bits <= 20 && fs.block_size == #[trigger] pow2(bits)) as int
}

/// The index of a compressed file.
pub open spec fn index_of(fs: Superblock, d: Seq<u8>, inode: Inode) -> Result<
    Seq<CompactEntry>,
    Fault,
> {
    let total = ceil_div(inode.size as int, cluster_size(fs, inode));
    entries_from(d, packing(inode, total), bits_of(fs), inode, Seq::empty(), total)
}

/// Reads from a position that may not fit into 64 bits.
fn read_wide<S: ByteSource>(image: &Image<S>, at: u128, len: usize) -> (r: Result<Vec<u8>, Error>)
    requires
        image.wf(),
    ensures
        told(image.faulty(), r, disk_read(image.disk(), at as int, len as int)),
{
    if at > u64::MAX as u128 {
        return Err(Error::invalid("read range overflow"));
    }
    image.read_at(at as u64, len)
}

/// Bounds the result of [`blocks_before`].
proof fn blocks_before_bound(
    entries: Seq<CompactEntry>,
    first: int,
    at: int,
    blocks: int,
    big: bool,
)
    requires
        0 <= blocks,
    ensures
        blocks <= blocks_before(entries, first, at, blocks, big) <= blocks + greatest(at, 0)
            * 0x1_0000_0000,
    decreases greatest(at, 0),
{
    if at > 0 {
        let previous = entries[first + at - 1];
        if previous.kind != CLUSTER_TYPE_NONHEAD {
            blocks_before_bound(entries, first, at - 1, blocks + 1, big);
        } else if big && previous.value / 0x800 % 2 == 1 {
            blocks_before_bound(entries, first, at - 2, blocks + (previous.value - 0x800), big);
        } else {
            blocks_before_bound(entries, first, at - 1 - previous.value, blocks, big);
        }
    }
}

fn count_blocks(entries: &Vec<CompactEntry>, first: usize, index: usize, big: bool) -> (n: u64)
    requires
        index < 16,
        first + index <= entries.len(),
    ensures
        n == blocks_before(
            entries@,
            first as int,
            index as int,
            if big {
                0
            } else {
                1
            },
            big,
        ),
        n <= 0x10_0000_0000,
{
    let mut at: i64 = index as i64;
    let mut blocks: u64 = if big {
        0
    } else {
        1
    };
    let ghost goal = blocks_before(entries@, first as int, index as int, blocks as int, big);
    proof {
        blocks_before_bound(entries@, first as int, index as int, blocks as int, big);
    }
    while at > 0
        invariant
            at <= index < 16,
            first + index <= entries.len(),
            goal <= 0x10_0000_0000,
            blocks <= goal,
            goal == blocks_before(entries@, first as int, at as int, blocks as int, big),
        decreases greatest(at as int, 0),
    {
        let previous = entries[first + (at - 1) as usize];
        proof {
            if previous.kind != CLUSTER_TYPE_NONHEAD {
                blocks_before_bound(entries@, first as int, at - 1, blocks + 1, big);
            } else if big && previous.value / 0x800 % 2 == 1 {
                blocks_before_bound(
                    entries@,
                    first as int,
                    at - 2,
                    blocks + (previous.value - 0x800),
                    big,
                );
            }
        }
        if previous.kind != CLUSTER_TYPE_NONHEAD {
            blocks = blocks + 1;
            at = at - 1;
        } else if big && previous.value / 0x800 % 2 == 1 {
            blocks = blocks + (previous.value - 0x800) as u64;
            at = at - 2;
        } else {
            at = at - 1 - previous.value as i64;
        }
    }
    proof {
        assert(blocks_before(entries@, first as int, at as int, blocks as int, big) == blocks);
    }
    blocks
}

/// The packing of an index, as numbers that hold every position.
struct PackingWords {
    base: u128,
    initial: u64,
    middle: u64,
}

impl PackingWords {
    spec fn is(self, p: Packing) -> bool {
        self.base == p.base && self.initial == p.initial && self.middle == p.middle
    }
}

fn read_packing(inode: &Inode, total: u64) -> (w: PackingWords)
    ensures
        w.is(packing(*inode, total as int)),
        w.base <= u64::MAX + 8,
        w.initial <= 8,
        w.middle <= total,
{
    let base: u128 = inode.data_offset as u128 + 8;
    let initial: u64 = if inode.advise % 2 == 1 && base % 32 != 0 {
        ((32 - base % 32) / 4) as u64
    } else {
        0
    };
    let middle: u64 = if inode.advise % 2 == 1 && initial < total {
        (total - initial) / 16 * 16
    } else {
        0
    };
    PackingWords { base, initial, middle }
}

fn read_entry<S: ByteSource>(
    image: &Image<S>,
    w: &PackingWords,
    Ghost(p): Ghost<Packing>,
    block_bits: u32,
    inode: &Inode,
    before: &Vec<CompactEntry>,
) -> (r: Result<CompactEntry, Error>)
    requires
        image.wf(),
        w.is(p),
        w.base <= u64::MAX + 8,
        w.initial <= 8,
        9 <= block_bits <= 20,
    ensures
        match r {
            Ok(e) => entry_at(
                image.disk(),
                p,
                block_bits as int,
                *inode,
                before@,
                before@.len() as int,
            ) == Ok::<CompactEntry, Fault>(e),
            Err(e) => entry_at(
                image.disk(),
                p,
                block_bits as int,
                *inode,
                before@,
                before@.len() as int,
            ) == Err::<CompactEntry, Fault>(e@) || (image.faulty() && e is Io),
        },
{
    let lcn = before.len() as u64;
    let position: u128;
    let wide: bool;
    if lcn < w.initial {
        position = w.base + lcn as u128 * 4;
        wide = true;
    } else if lcn - w.initial < w.middle {
        position = w.base + w.initial as u128 * 4 + (lcn - w.initial) as u128 * 2;
        wide = false;
    } else {
        position = w.base + w.initial as u128 * 4 + w.middle as u128 * 2 + (lcn - w.initial
            - w.middle) as u128 * 4;
        wide = true;
    }
    let size: u128 = if wide {
        4
    } else {
        2
    };
    let pack_len: u128 = if wide {
        8
    } else {
        32
    };
    let bits: u128 = if wide {
        16
    } else {
        14
    };
    assert((position as int, size as int) == slot(p, lcn as int));
    let pack: u128 = if wide {
        position / 8 * 8
    } else {
        position / 32 * 32
    };
    let index: u128 = if wide {
        (position - pack) / 4
    } else {
        (position - pack) / 2
    };
    assert(index < 16);
    let bit: u128 = if wide {
        index * 16
    } else {
        index * 14
    };
    assert(bit == index * entry_bits(size as int));
    let packed = read_wide(image, pack + bit / 8, 4)?;
    let cluster = inode.cluster_bits as u32;
    let sum = block_bits + cluster;
    let low = if sum < 12 {
        12
    } else {
        sum
    };
    if low > 31 {
        return Err(Error::invalid("invalid EROFS cluster configuration"));
    }
    let trailer = read_wide(image, pack + pack_len - 4, 4)?;
    let shift = two_to((bit % 8) as u32);
    let mask = two_to(low);
    proof {
        vstd::arithmetic::power2::lemma_pow2_pos((bit % 8) as nat);
        vstd::arithmetic::power2::lemma_pow2_pos(low as nat);
        vstd::arithmetic::power2::lemma2_to64();
        if low < 32 {
            vstd::arithmetic::power2::lemma_pow2_strictly_increases(low as nat, 32);
        }
    }
    let raw = get32(&packed, 0) as u64 / shift;
    let kind = (raw / mask % 4) as u8;
    let low_part = raw % mask;
    assert(low_part < mask);
    let value = low_part as u32;
    let anchor = get32(&trailer, 0) as u64;
    if kind == CLUSTER_TYPE_NONHEAD {
        return Ok(CompactEntry { lcn, kind, value, pblk: anchor });
    }
    if (lcn as u128) < index {
        return Err(Error::invalid("invalid EROFS compact index position"));
    }
    let first = before.len() - index as usize;
    let blocks = count_blocks(before, first, index as usize, inode.advise / 2 % 2 == 1);
    Ok(CompactEntry { lcn, kind, value, pblk: anchor + blocks })
}

/// Compute the compact index. The packing depends on the total number of
/// clusters, so the index is always computed whole.
pub fn compact_index<S: ByteSource>(fs: &Superblock, image: &Image<S>, inode: &Inode) -> (r: Result<
    CompactIndex,
    Error,
>)
    requires
        image.wf(),
        fs.wf(),
        inode.cluster_bits < 8,
    ensures
        match r {
            Ok(index) => {
                &&& index_of(*fs, image.disk(), *inode) == Ok::<Seq<CompactEntry>, Fault>(
                    index.entries@,
                )
                &&& index.logical_block_size == cluster_size(*fs, *inode)
                &&& index.logical_block_size > 0
            },
            Err(e) => index_of(*fs, image.disk(), *inode) == Err::<Seq<CompactEntry>, Fault>(e@)
                || (image.faulty() && e is Io),
        },
{
    let bits = fs.block_bits();
    proof {
        super::block_size_bounds(bits as nat);
        let b = bits_of(*fs);
        assert(9 <= b <= 20 && fs.block_size == pow2(b as nat));
        if b < bits {
            vstd::arithmetic::power2::lemma_pow2_strictly_increases(b as nat, bits as nat);
        } else if bits < b {
            vstd::arithmetic::power2::lemma_pow2_strictly_increases(bits as nat, b as nat);
        }
        vstd::arithmetic::power2::lemma2_to64();
        vstd::arithmetic::power2::lemma_pow2_pos(inode.cluster_bits as nat);
        vstd::arithmetic::power2::lemma_pow2_strictly_increases(inode.cluster_bits as nat, 8);
    }
    let factor = two_to(inode.cluster_bits as u32);
    assert(0 < fs.block_size * factor <= 1024 * 1024 * 256) by (nonlinear_arith)
        requires
            0 < fs.block_size <= 1024 * 1024,
            0 < factor <= 256,
    ;
    let logical_block_size = fs.block_size * factor;
    let total = div_up(inode.size, logical_block_size);
    let w = read_packing(inode, total);
    let ghost p = packing(*inode, total as int);
    let ghost d = image.disk();
    let mut entries: Vec<CompactEntry> = Vec::new();
    while (entries.len() as u64) < total
        invariant
            image.wf(),
            d == image.disk(),
            w.is(p),
            w.base <= u64::MAX + 8,
            w.initial <= 8,
            9 <= bits <= 20,
            entries@.len() <= total,
            index_of(*fs, d, *inode) == entries_from(
                d,
                p,
                bits as int,
                *inode,
                entries@,
                total as int,
            ),
        decreases total - entries@.len(),
    {
        let entry = read_entry(image, &w, Ghost(p), bits, inode, &entries)?;
        entries.push(entry);
    }
    Ok(CompactIndex { logical_block_size, entries })
}

// ---------------------------------------------------------------------
// Segments
// ---------------------------------------------------------------------
/// One resolved output segment: either a plain run or a cluster to decode.
#[derive(Debug, Clone, Copy)]
pub struct Segment {
    pub kind: u8,
    pub start: u64,
    pub end: u64,
    pub physical: u64,
    pub compressed_blocks: u64,
    pub algorithm: u8,
}

/// Where the cluster of an entry starts in the file.
pub open spec fn entry_start(entry: CompactEntry, lbs: int) -> int {
    entry.lcn * lbs + entry.value
}

/// The first entry from `i` on that starts a cluster.
pub open spec fn next_head(entries: Seq<CompactEntry>, i: int) -> int
    decreases entries.len() - i,
{
    if i < 0 || i >= entries.len() || entries[i].kind != CLUSTER_TYPE_NONHEAD {
        i
    } else {
        next_head(entries, i + 1)
    }
}

/// The number of blocks of the cluster whose followers start at `i`.
pub open spec fn blocks_after(entries: Seq<CompactEntry>, i: int) -> int
    decreases entries.len() - i,
{
    if i < 0 || i >= entries.len() || entries[i].kind != CLUSTER_TYPE_NONHEAD {
        1
    } else if entries[i].value / 0x800 % 2 == 1 {
        greatest(entries[i].value - 0x800, 1)
    } else {
        blocks_after(entries, i + 1)
    }
}

/// What one entry of the index comes to: the segment that it starts, if any,
/// and the physical block that the next segment starts at, if it is known.
/// A plain segment may be empty.
pub open spec fn segment_at(
    entries: Seq<CompactEntry>,
    inode: Inode,
    lbs: int,
    i: int,
    cursor: Option<u64>,
) -> Result<(Option<Segment>, Option<u64>), Fault> {
    let entry = entries[i];
    let start = entry_start(entry, lbs);
    let physical = match cursor {
        Some(p) => p,
        None => entry.pblk,
    };
    if start > u64::MAX {
        fail("EROFS logical offset overflow"@)
    } else if entry.kind == CLUSTER_TYPE_PLAIN {
        let end = if i + 1 < entries.len() {
            least(entry_start(entries[i + 1], lbs), inode.size as int)
        } else {
            inode.size as int
        };
        if start >= inode.size {
            Ok((None, cursor))
        } else if physical + 1 > u64::MAX {
            fail("EROFS physical block overflow"@)
        } else {
            Ok(
                (
                    Some(
                        Segment {
                            kind: CLUSTER_TYPE_PLAIN,
                            start: start as u64,
                            end: greatest(start, end) as u64,
                            physical,
                            compressed_blocks: 0,
                            algorithm: 0,
                        },
                    ),
                    Some((physical + 1) as u64),
                ),
            )
        }
    } else if entry.kind != CLUSTER_TYPE_HEAD1 && entry.kind != CLUSTER_TYPE_HEAD2 {
        Ok((None, cursor))
    } else {
        let next = next_head(entries, i + 1);
        let end = if next < entries.len() {
            entry_start(entries[next], lbs)
        } else {
            inode.size as int
        };
        let blocks = blocks_after(entries, i + 1);
        if end <= start || end > inode.size {
            fail("invalid EROFS compressed extent"@)
        } else if end - start > MAX_PCLUSTER {
            fail("EROFS compressed extent is too large"@)
        } else if blocks > MAX_CLUSTER_BLOCKS {
            fail("EROFS compressed extent is too large"@)
        } else if physical + blocks > u64::MAX {
            fail("EROFS physical block overflow"@)
        } else {
            Ok(
                (
                    Some(
                        Segment {
                            kind: entry.kind,
                            start: start as u64,
                            end: end as u64,
                            physical,
                            compressed_blocks: blocks as u64,
                            algorithm: if entry.kind == CLUSTER_TYPE_HEAD1 {
                                inode.algorithm_type % 16
                            } else {
                                inode.algorithm_type / 16
                            },
                        },
                    ),
                    Some((physical + blocks) as u64),
                ),
            )
        }
    }
}

/// The non-empty segments of the entries from `i` on.
pub open spec fn segments_from(
    entries: Seq<CompactEntry>,
    inode: Inode,
    lbs: int,
    i: int,
    cursor: Option<u64>,
) -> Result<Seq<Segment>, Fault>
    decreases entries.len() - i,
{
    if i >= entries.len() {
        Ok(Seq::empty())
    } else {
        match segment_at(entries, inode, lbs, i, cursor) {
            Err(e) => Err(e),
            Ok((segment, next)) => match segments_from(entries, inode, lbs, i + 1, next) {
                Err(e) => Err(e),
                Ok(rest) => match segment {
                    Some(s) => if s.end > s.start {
                        Ok(seq![s] + rest)
                    } else {
                        Ok(rest)
                    },
                    None => Ok(rest),
                },
            },
        }
    }
}

fn find_head(entries: &Vec<CompactEntry>, from: usize) -> (i: usize)
    requires
        from <= entries@.len(),
    ensures
        from <= i <= entries@.len(),
        i == next_head(entries@, from as int),
{
    let mut i = from;
    while i < entries.len() && entries[i].kind == CLUSTER_TYPE_NONHEAD
        invariant
            from <= i <= entries@.len(),
            next_head(entries@, from as int) == next_head(entries@, i as int),
        decreases entries@.len() - i,
    {
        i += 1;
    }
    i
}

fn follower_blocks(entries: &Vec<CompactEntry>, from: usize) -> (n: u32)
    requires
        from <= entries@.len(),
    ensures
        n == blocks_after(entries@, from as int),
{
    let mut i = from;
    while i < entries.len() && entries[i].kind == CLUSTER_TYPE_NONHEAD
        invariant
            from <= i <= entries@.len(),
            blocks_after(entries@, from as int) == blocks_after(entries@, i as int),
        decreases entries@.len() - i,
    {
        let value = entries[i].value;
        if value / 0x800 % 2 == 1 {
            return if value - 0x800 < 1 {
                1
            } else {
                value - 0x800
            };
        }
        i += 1;
    }
    1
}

/// Resolves one entry of the index.
fn resolve(index: &CompactIndex, inode: &Inode, i: usize, cursor: Option<u64>) -> (r: Result<
    (Option<Segment>, Option<u64>),
    Error,
>)
    requires
        i < index.entries.len(),
    ensures
        r matches Ok((Some(s), _)) ==> sound(s, *inode),
        match r {
            Ok(v) => segment_at(
                index.entries@,
                *inode,
                index.logical_block_size as int,
                i as int,
                cursor,
            ) == Ok::<(Option<Segment>, Option<u64>), Fault>(v),
            Err(e) => segment_at(
                index.entries@,
                *inode,
                index.logical_block_size as int,
                i as int,
                cursor,
            ) == Err::<(Option<Segment>, Option<u64>), Fault>(e@),
        },
{
    let lbs = index.logical_block_size as u128;
    let entry = index.entries[i];
    assert(entry.lcn * lbs <= 0xffff_ffff_ffff_ffff * 0xffff_ffff_ffff_ffff) by (nonlinear_arith)
        requires
            entry.lcn <= 0xffff_ffff_ffff_ffff,
            lbs <= 0xffff_ffff_ffff_ffff,
    ;
    let wide = entry.lcn as u128 * lbs + entry.value as u128;
    if wide > u64::MAX as u128 {
        return Err(Error::invalid("EROFS logical offset overflow"));
    }
    let start = wide as u64;
    let physical = match cursor {
        Some(p) => p,
        None => entry.pblk,
    };
    if entry.kind == CLUSTER_TYPE_PLAIN {
        if start >= inode.size {
            return Ok((None, cursor));
        }
        let end: u64 = if i + 1 < index.entries.len() {
            let next = index.entries[i + 1];
            assert(next.lcn * lbs <= 0xffff_ffff_ffff_ffff * 0xffff_ffff_ffff_ffff)
                by (nonlinear_arith)
                requires
                    next.lcn <= 0xffff_ffff_ffff_ffff,
                    lbs <= 0xffff_ffff_ffff_ffff,
            ;
            let at = next.lcn as u128 * lbs + next.value as u128;
            if at < inode.size as u128 {
                at as u64
            } else {
                inode.size
            }
        } else {
            inode.size
        };
        let after = match physical.checked_add(1) {
            Some(v) => v,
            None => {
                return Err(Error::invalid("EROFS physical block overflow"));
            },
        };
        return Ok(
            (
                Some(
                    Segment {
                        kind: CLUSTER_TYPE_PLAIN,
                        start,
                        end: if end < start {
                            start
                        } else {
                            end
                        },
                        physical,
                        compressed_blocks: 0,
                        algorithm: 0,
                    },
                ),
                Some(after),
            ),
        );
    }
    if entry.kind != CLUSTER_TYPE_HEAD1 && entry.kind != CLUSTER_TYPE_HEAD2 {
        return Ok((None, cursor));
    }
    let next = find_head(&index.entries, i + 1);
    let end: u128 = if next < index.entries.len() {
        let head = index.entries[next];
        assert(head.lcn * lbs <= 0xffff_ffff_ffff_ffff * 0xffff_ffff_ffff_ffff) by (nonlinear_arith)
            requires
                head.lcn <= 0xffff_ffff_ffff_ffff,
                lbs <= 0xffff_ffff_ffff_ffff,
        ;
        head.lcn as u128 * lbs + head.value as u128
    } else {
        inode.size as u128
    };
    if end <= start as u128 || end > inode.size as u128 {
        return Err(Error::invalid("invalid EROFS compressed extent"));
    }
    let end = end as u64;
    if end - start > MAX_PCLUSTER as u64 {
        return Err(Error::invalid("EROFS compressed extent is too large"));
    }
    let blocks = follower_blocks(&index.entries, i + 1);
    if blocks > MAX_CLUSTER_BLOCKS {
        return Err(Error::invalid("EROFS compressed extent is too large"));
    }
    let after = match physical.checked_add(blocks as u64) {
        Some(v) => v,
        None => {
            return Err(Error::invalid("EROFS physical block overflow"));
        },
    };
    Ok(
        (
            Some(
                Segment {
                    kind: entry.kind,
                    start,
                    end,
                    physical,
                    compressed_blocks: blocks as u64,
                    algorithm: if entry.kind == CLUSTER_TYPE_HEAD1 {
                        inode.algorithm_type % 16
                    } else {
                        inode.algorithm_type / 16
                    },
                },
            ),
            Some(after),
        ),
    )
}

/// What every segment keeps: it lies inside the file, and a cluster to
/// decode is bounded.
pub open spec fn sound(s: Segment, inode: Inode) -> bool {
    &&& s.start <= s.end <= inode.size
    &&& s.kind != CLUSTER_TYPE_PLAIN ==> s.end - s.start <= MAX_PCLUSTER
    &&& s.compressed_blocks <= MAX_CLUSTER_BLOCKS
}

/// Resolve the index into ordered output segments (fillers are skipped).
pub fn segments(index: &CompactIndex, inode: &Inode) -> (r: Result<Vec<Segment>, Error>)
    ensures
        told(
            false,
            r,
            segments_from(index.entries@, *inode, index.logical_block_size as int, 0, None),
        ),
        r matches Ok(v) ==> forall|k: int|
            0 <= k < v@.len() ==> sound(#[trigger] v@[k], *inode) && v@[k].start < v@[k].end,
{
    let ghost entries = index.entries@;
    let ghost lbs = index.logical_block_size as int;
    let ghost whole = segments_from(entries, *inode, lbs, 0, None);
    let mut out: Vec<Segment> = Vec::new();
    let mut cursor: Option<u64> = None;
    let mut i: usize = 0;
    proof {
        if let Ok(rest) = whole {
            assert(out@ + rest =~= rest);
        }
    }
    while i < index.entries.len()
        invariant
            i <= entries.len(),
            entries == index.entries@,
            lbs == index.logical_block_size,
            whole == segments_from(entries, *inode, lbs, 0, None),
            whole == (match segments_from(entries, *inode, lbs, i as int, cursor) {
                Err(e) => Err(e),
                Ok(rest) => Ok(out@ + rest),
            }),
            forall|k: int|
                0 <= k < out@.len() ==> sound(#[trigger] out@[k], *inode) && out@[k].start
                    < out@[k].end,
        decreases entries.len() - i,
    {
        let (segment, next) = resolve(index, inode, i, cursor)?;
        let ghost before = out@;
        match segment {
            Some(s) => {
                if s.end > s.start {
                    out.push(s);
                }
            },
            None => {},
        }
        proof {
            if let Ok(rest) = segments_from(entries, *inode, lbs, i + 1, next) {
                if let Some(s) = segment {
                    if s.end > s.start {
                        assert(before + (seq![s] + rest) =~= out@ + rest);
                    }
                }
            }
        }
        cursor = next;
        i += 1;
    }
    assert(out@ + Seq::<Segment>::empty() =~= out@);
    Ok(out)
}

/// What reading a segment yields.
pub open spec fn segment_data(fs: Superblock, d: Seq<u8>, s: Segment) -> Result<Seq<u8>, Fault> {
    let size = fs.block_size * s.compressed_blocks;
    if s.kind == CLUSTER_TYPE_PLAIN {
        disk_read(d, s.physical * fs.block_size, s.end - s.start)
    } else if size > MAX_CLUSTER_INPUT {
        fail("EROFS compressed extent is too large"@)
    } else {
        match disk_read(d, s.physical * fs.block_size, size) {
            Err(e) => Err(e),
            Ok(x) => decompressed(x, s.end - s.start, s.algorithm, fs.feature_incompat % 2 == 1),
        }
    }
}

/// Decode (or copy) one segment.
pub fn read_segment<S: ByteSource>(fs: &Superblock, image: &Image<S>, seg: &Segment) -> (r: Result<
    Vec<u8>,
    Error,
>)
    requires
        image.wf(),
        fs.wf(),
        seg.start <= seg.end,
        seg.end - seg.start <= usize::MAX,
        seg.compressed_blocks <= MAX_CLUSTER_BLOCKS,
    ensures
        told(image.faulty(), r, segment_data(*fs, image.disk(), *seg)),
        r matches Ok(v) ==> v@.len() == seg.end - seg.start,
{
    proof {
        let bits = choose|bits: nat| 9 <= bits <= 20 && fs.block_size == #[trigger] pow2(bits);
        super::block_size_bounds(bits);
    }
    assert(seg.physical * fs.block_size <= 0xffff_ffff_ffff_ffff * 0x10_0000) by (nonlinear_arith)
        requires
            seg.physical <= 0xffff_ffff_ffff_ffff,
            fs.block_size <= 0x10_0000,
    ;
    assert(0 <= fs.block_size * seg.compressed_blocks <= 0x10_0000 * 8192) by (nonlinear_arith)
        requires
            fs.block_size <= 0x10_0000,
            seg.compressed_blocks <= 8192,
    ;
    let want = (seg.end - seg.start) as usize;
    let at = seg.physical as u128 * fs.block_size as u128;
    if seg.kind == CLUSTER_TYPE_PLAIN {
        return read_wide(image, at, want);
    }
    let size = fs.block_size * seg.compressed_blocks;
    if size > MAX_CLUSTER_INPUT {
        return Err(Error::invalid("EROFS compressed extent is too large"));
    }
    let compressed = read_wide(image, at, size as usize)?;
    decompress(&compressed, want, seg.algorithm, fs.feature_incompat % 2 == 1)
}

/// `out` with the segments of the entries from `i` on put in place.
pub open spec fn filled_from(
    fs: Superblock,
    d: Seq<u8>,
    entries: Seq<CompactEntry>,
    inode: Inode,
    lbs: int,
    i: int,
    cursor: Option<u64>,
    out: Seq<u8>,
) -> Result<Seq<u8>, Fault>
    decreases entries.len() - i,
{
    if i >= entries.len() {
        Ok(out)
    } else {
        match segment_at(entries, inode, lbs, i, cursor) {
            Err(e) => Err(e),
            Ok((None, next)) => filled_from(fs, d, entries, inode, lbs, i + 1, next, out),
            Ok((Some(s), next)) => match segment_data(fs, d, s) {
                Err(e) => Err(e),
                Ok(x) => filled_from(
                    fs,
                    d,
                    entries,
                    inode,
                    lbs,
                    i + 1,
                    next,
                    splice(out, s.start as int, x),
                ),
            },
        }
    }
}

/// `out` with the content of a compressed file put in place.
pub open spec fn compact_data(fs: Superblock, d: Seq<u8>, inode: Inode, out: Seq<u8>) -> Result<
    Seq<u8>,
    Fault,
> {
    match index_of(fs, d, inode) {
        Err(e) => Err(e),
        Ok(entries) => filled_from(
            fs,
            d,
            entries,
            inode,
            cluster_size(fs, inode),
            0,
            None,
            out,
        ),
    }
}

/// Read a whole compressed file into `output`.
pub fn read_compact_data<S: ByteSource>(
    fs: &Superblock,
    image: &Image<S>,
    inode: &Inode,
    output: &mut Vec<u8>,
) -> (r: Result<(), Error>)
    requires
        image.wf(),
        fs.wf(),
        inode.cluster_bits < 8,
        old(output)@.len() == inode.size,
    ensures
        final(output)@.len() == old(output)@.len(),
        match r {
            Ok(_) => compact_data(*fs, image.disk(), *inode, old(output)@) == Ok::<Seq<u8>, Fault>(
                final(output)@,
            ),
            Err(e) => compact_data(*fs, image.disk(), *inode, old(output)@) == Err::<
                Seq<u8>,
                Fault,
            >(e@) || (image.faulty() && e is Io),
        },
{
    let index = compact_index(fs, image, inode)?;
    let ghost entries = index.entries@;
    let ghost lbs = index.logical_block_size as int;
    let ghost d = image.disk();
    let ghost whole = compact_data(*fs, d, *inode, old(output)@);
    let mut cursor: Option<u64> = None;
    let mut i: usize = 0;
    while i < index.entries.len()
        invariant
            i <= entries.len(),
            image.wf(),
            fs.wf(),
            d == image.disk(),
            entries == index.entries@,
            lbs == index.logical_block_size,
            output@.len() == inode.size,
            output@.len() == old(output)@.len(),
            whole == compact_data(*fs, d, *inode, old(output)@),
            whole == filled_from(*fs, d, entries, *inode, lbs, i as int, cursor, output@),
        decreases entries.len() - i,
    {
        let (segment, next) = resolve(&index, inode, i, cursor)?;
        match segment {
            Some(s) => {
                assert(s.end <= output.len());
                let x = read_segment(fs, image, &s)?;
                put(output, s.start as usize, &x);
            },
            None => {},
        }
        cursor = next;
        i += 1;
    }
    Ok(())
}

} // verus!
