//! EROFS inodes and file data.
use super::compress::{
    compact_data, compact_index, index_of, read_compact_data, read_segment, segment_data, segments,
    segments_from, sound, cluster_size, Segment, CLUSTER_TYPE_PLAIN,
};
use super::Superblock;
use crate::buf::{get16, get32, get64, le16, le32, le64, put, splice, zeroed, zeros};
use crate::error::{fail, told, Error, Fault};
use crate::image::{disk_read, ByteSink, ByteSource, Image};
use crate::math::{align_up, greatest, least};
use crate::stream::{pieces, stream_range, STREAM_CHUNK};
use crate::text::{dec, with_number};
use vstd::arithmetic::power2::pow2;
use vstd::prelude::*;

verus! {

/// The flag of an extended inode.
pub const INODE_EXTENDED: u16 = 1;

/// Content in blocks of its own.
pub const LAYOUT_PLAIN: u16 = 0;

/// Content whose tail stands behind the inode.
pub const LAYOUT_INLINE: u16 = 2;

/// Compressed content with a compact index.
pub const LAYOUT_COMPRESSED_COMPACT: u16 = 3;

/// Largest file that is read into memory.
pub const MAX_FILE_BUFFER: u64 = 17179869184;

/// An inode.
#[derive(Debug, Clone, Copy)]
pub struct Inode {
    pub nid: u64,
    pub mode: u16,
    pub uid: u32,
    pub gid: u32,
    pub size: u64,
    pub layout: u16,
    pub data_offset: u64,
    pub raw_blkaddr: u32,
    pub advise: u16,
    pub algorithm_type: u8,
    pub cluster_bits: u8,
    /// Inline xattr area size in bytes (0 without attributes).
    pub xattr_size: u64,
    /// On-disk inode body size: 32 (compact) or 64 (extended).
    pub inode_size: u64,
}

impl View for Inode {
    type V = Inode;

    open spec fn view(&self) -> Inode {
        *self
    }
}

// ---------------------------------------------------------------------
// Inodes
// ---------------------------------------------------------------------
/// Where the body of an inode stands. Numbers are taken modulo 2^59, so
/// that 32 times the number fits into 64 bits.
pub open spec fn inode_offset(fs: Superblock, nid: u64) -> int {
    fs.meta_blkaddr * fs.block_size + (nid % 0x800_0000_0000_0000) * 32
}

/// The size of the inline attribute area for a count.
pub open spec fn xattr_area(count: int) -> int {
    if count == 0 {
        0
    } else {
        8 + 4 * count
    }
}

/// Where the data behind an inode stands.
pub open spec fn data_start(offset: int, x: Seq<u8>) -> int {
    align_up(
        offset + (if le16(x, 0) % 2 == 1 {
            64int
        } else {
            32
        }) + xattr_area(le16(x, 2) as int),
        if le16(x, 0) / 2 % 8 == LAYOUT_COMPRESSED_COMPACT {
            8
        } else {
            4
        },
    )
}

/// The fields of an inode body `x`, with its map header.
pub open spec fn inode_fields(nid: u64, offset: int, x: Seq<u8>, header: Seq<u8>) -> Inode {
    let extended = le16(x, 0) % 2 == 1;
    Inode {
        nid,
        mode: le16(x, 4),
        uid: if extended {
            le32(x, 24)
        } else {
            le16(x, 24) as u32
        },
        gid: if extended {
            le32(x, 28)
        } else {
            le16(x, 26) as u32
        },
        size: if extended {
            le64(x, 8)
        } else {
            le32(x, 8) as u64
        },
        layout: le16(x, 0) / 2 % 8,
        data_offset: data_start(offset, x) as u64,
        raw_blkaddr: le32(x, 16),
        advise: le16(header, 4),
        algorithm_type: header[6],
        cluster_bits: header[7] % 8,
        xattr_size: xattr_area(le16(x, 2) as int) as u64,
        inode_size: if extended {
            64
        } else {
            32
        },
    }
}

/// The inode of the given number.
pub open spec fn inode_of(fs: Superblock, d: Seq<u8>, nid: u64) -> Result<Inode, Fault> {
    let offset = inode_offset(fs, nid);
    if offset > u64::MAX {
        fail("EROFS inode offset overflow"@)
    } else {
        match disk_read(d, offset, 64) {
            Err(e) => Err(e),
            Ok(x) => if data_start(offset, x) > u64::MAX {
                fail("EROFS inode offset overflow"@)
            } else if le16(x, 0) / 2 % 8 == LAYOUT_COMPRESSED_COMPACT {
                match disk_read(d, data_start(offset, x), 8) {
                    Err(e) => Err(e),
                    Ok(header) => Ok(inode_fields(nid, offset, x, header)),
                }
            } else {
                Ok(inode_fields(nid, offset, x, zeros(8)))
            },
        }
    }
}

/// The position of the body of an inode.
pub fn locate(fs: &Superblock, nid: u64) -> (r: Result<u64, Error>)
    requires
        fs.wf(),
    ensures
        match r {
            Ok(at) => at == inode_offset(*fs, nid),
            Err(e) => inode_offset(*fs, nid) > u64::MAX && e@ == Fault::Invalid(
                "EROFS inode offset overflow"@,
            ),
        },
{
    proof {
        let bits = choose|bits: nat| 9 <= bits <= 20 && fs.block_size == #[trigger] pow2(bits);
        super::block_size_bounds(bits);
    }
    assert(fs.meta_blkaddr * fs.block_size <= 0xffff_ffff * 0x10_0000) by (nonlinear_arith)
        requires
            fs.meta_blkaddr <= 0xffff_ffff,
            fs.block_size <= 0x10_0000,
    ;
    let base = fs.meta_blkaddr * fs.block_size;
    match base.checked_add((nid % 0x800_0000_0000_0000) * 32) {
        Some(v) => Ok(v),
        None => Err(Error::invalid("EROFS inode offset overflow")),
    }
}

/// Read the inode of the given number.
pub fn read<S: ByteSource>(fs: &Superblock, image: &Image<S>, nid: u64) -> (r: Result<Inode, Error>)
    requires
        image.wf(),
        fs.wf(),
    ensures
        told(image.faulty(), r, inode_of(*fs, image.disk(), nid)),
        r matches Ok(inode) ==> inode.cluster_bits < 8,
{
    let offset = locate(fs, nid)?;
    let x = image.read_at(offset, 64)?;
    let format = get16(&x, 0);
    let extended = format % 2 == 1;
    let layout = format / 2 % 8;
    let inode_size: u64 = if extended {
        64
    } else {
        32
    };
    let count = get16(&x, 2) as u64;
    let xattr_size: u64 = if count == 0 {
        0
    } else {
        8 + 4 * count
    };
    let unit: u128 = if layout == LAYOUT_COMPRESSED_COMPACT {
        8
    } else {
        4
    };
    let end = offset as u128 + inode_size as u128 + xattr_size as u128;
    proof {
        crate::math::ceil_div_covers(end as int, unit as int);
    }
    let aligned: u128 = if end % unit == 0 {
        end
    } else if unit == 8 {
        end / 8 * 8 + 8
    } else {
        end / 4 * 4 + 4
    };
    assert(aligned == data_start(offset as int, x@));
    if aligned > u64::MAX as u128 {
        return Err(Error::invalid("EROFS inode offset overflow"));
    }
    let data_offset = aligned as u64;
    let header = if layout == LAYOUT_COMPRESSED_COMPACT {
        image.read_at(data_offset, 8)?
    } else {
        zeroed(8)
    };
    Ok(
        Inode {
            nid,
            mode: get16(&x, 4),
            uid: if extended {
                get32(&x, 24)
            } else {
                get16(&x, 24) as u32
            },
            gid: if extended {
                get32(&x, 28)
            } else {
                get16(&x, 26) as u32
            },
            size: if extended {
                get64(&x, 8)
            } else {
                get32(&x, 8) as u64
            },
            layout,
            data_offset,
            raw_blkaddr: get32(&x, 16),
            advise: get16(&header, 4),
            algorithm_type: header[6],
            cluster_bits: header[7] % 8,
            xattr_size,
            inode_size,
        },
    )
}

// ---------------------------------------------------------------------
// Whole files
// ---------------------------------------------------------------------
/// The complaint about a layout that is not supported.
pub open spec fn bad_layout(layout: u16) -> Seq<char> {
    "unsupported EROFS data layout "@ + dec(layout as int) + ""@
}

/// The content of a file whose tail stands behind its inode.
pub open spec fn inline_data(fs: Superblock, d: Seq<u8>, inode: Inode) -> Result<Seq<u8>, Fault> {
    let size = inode.size as int;
    let full = size / (fs.block_size as int) * fs.block_size;
    if inode.raw_blkaddr == 0 {
        disk_read(d, inode.data_offset as int, size)
    } else {
        match if full > 0 {
            disk_read(d, inode.raw_blkaddr * fs.block_size, full)
        } else {
            Ok(Seq::empty())
        } {
            Err(e) => Err(e),
            Ok(head) => match if full < size {
                disk_read(d, inode.data_offset as int, size - full)
            } else {
                Ok(Seq::empty())
            } {
                Err(e) => Err(e),
                Ok(tail) => Ok(head + tail),
            },
        }
    }
}

/// The content of a file.
pub open spec fn data_of(fs: Superblock, d: Seq<u8>, inode: Inode) -> Result<Seq<u8>, Fault> {
    if inode.size > MAX_FILE_BUFFER || inode.size > usize::MAX {
        fail("EROFS file is too large"@)
    } else if inode.size == 0 {
        Ok(Seq::empty())
    } else if inode.layout == LAYOUT_PLAIN {
        disk_read(d, inode.raw_blkaddr * fs.block_size, inode.size as int)
    } else if inode.layout == LAYOUT_INLINE {
        inline_data(fs, d, inode)
    } else if inode.layout == LAYOUT_COMPRESSED_COMPACT {
        compact_data(fs, d, inode, zeros(inode.size as int))
    } else {
        fail(bad_layout(inode.layout))
    }
}

fn layout_error(layout: u16) -> (e: Error)
    ensures
        e@ == Fault::Invalid(bad_layout(layout)),
{
    Error::Invalid(with_number("unsupported EROFS data layout ", layout as u64, ""))
}

proof fn raw_bound(fs: Superblock, inode: Inode)
    requires
        fs.wf(),
    ensures
        0 <= inode.raw_blkaddr * fs.block_size <= 0xffff_ffff * 0x10_0000,
        512 <= fs.block_size <= 0x10_0000,
{
    let bits = choose|bits: nat| 9 <= bits <= 20 && fs.block_size == #[trigger] pow2(bits);
    super::block_size_bounds(bits);
    assert(0 <= inode.raw_blkaddr * fs.block_size <= 0xffff_ffff * 0x10_0000) by (nonlinear_arith)
        requires
            inode.raw_blkaddr <= 0xffff_ffff,
            fs.block_size <= 0x10_0000,
    ;
}

proof fn full_bound(fs: Superblock, size: int)
    requires
        fs.block_size > 0,
        size >= 0,
    ensures
        0 <= size / (fs.block_size as int) * fs.block_size <= size,
        size - size / (fs.block_size as int) * fs.block_size < fs.block_size,
{
    let b = fs.block_size as int;
    vstd::arithmetic::div_mod::lemma_fundamental_div_mod(size, b);
    let q = size / b;
    assert(q * b == b * q) by (nonlinear_arith);
    assert(q >= 0) by (nonlinear_arith)
        requires
            size == b * q + size % b,
            size % b < b,
            b > 0,
            size >= 0,
    ;
    assert(b * q >= 0) by (nonlinear_arith)
        requires
            q >= 0,
            b > 0,
    ;
}

/// Full file read.
pub fn read_data<S: ByteSource>(fs: &Superblock, image: &Image<S>, inode: &Inode) -> (r: Result<
    Vec<u8>,
    Error,
>)
    requires
        image.wf(),
        fs.wf(),
        inode.cluster_bits < 8,
    ensures
        told(image.faulty(), r, data_of(*fs, image.disk(), *inode)),
{
    if inode.size > MAX_FILE_BUFFER || inode.size > usize::MAX as u64 {
        return Err(Error::invalid("EROFS file is too large"));
    }
    let size = inode.size as usize;
    if size == 0 {
        return Ok(Vec::new());
    }
    proof {
        raw_bound(*fs, *inode);
        full_bound(*fs, size as int);
    }
    let raw = inode.raw_blkaddr as u64 * fs.block_size;
    if inode.layout == LAYOUT_PLAIN {
        image.read_at(raw, size)
    } else if inode.layout == LAYOUT_INLINE {
        if inode.raw_blkaddr == 0 {
            return image.read_at(inode.data_offset, size);
        }
        let full = (inode.size / fs.block_size * fs.block_size) as usize;
        let mut data: Vec<u8> = Vec::new();
        if full > 0 {
            data = image.read_at(raw, full)?;
        }
        if full < size {
            let tail = image.read_at(inode.data_offset, size - full)?;
            let ghost head = data@;
            crate::buf::push_bytes(&mut data, &tail);
        } else {
            assert(data@ + Seq::<u8>::empty() =~= data@);
        }
        assert(full == 0 ==> Seq::<u8>::empty() + data@ =~= data@);
        Ok(data)
    } else if inode.layout == LAYOUT_COMPRESSED_COMPACT {
        let mut data = zeroed(size);
        read_compact_data(fs, image, inode, &mut data)?;
        Ok(data)
    } else {
        Err(layout_error(inode.layout))
    }
}

// ---------------------------------------------------------------------
// Ranges
// ---------------------------------------------------------------------
/// `n` bytes from `offset` on of a file whose tail stands behind its inode.
pub open spec fn inline_range(fs: Superblock, d: Seq<u8>, inode: Inode, offset: int, n: int) -> Result<
    Seq<u8>,
    Fault,
> {
    let full = if inode.raw_blkaddr == 0 {
        0
    } else {
        inode.size as int / (fs.block_size as int) * fs.block_size
    };
    let first = if offset < full {
        least(full - offset, n)
    } else {
        0
    };
    match if first > 0 {
        disk_read(d, inode.raw_blkaddr * fs.block_size + offset, first)
    } else {
        Ok(Seq::empty())
    } {
        Err(e) => Err(e),
        Ok(head) => if first >= n {
            Ok(head)
        } else if inode.data_offset + (offset + first - full) > u64::MAX {
            fail("EROFS offset overflow"@)
        } else {
            match disk_read(d, inode.data_offset + (offset + first - full), n - first) {
                Err(e) => Err(e),
                Ok(tail) => Ok(head + tail),
            }
        },
    }
}

/// The part of a segment between two positions of the file.
#[verifier::opaque]
pub open spec fn segment_part(fs: Superblock, d: Seq<u8>, s: Segment, from: int, to: int) -> Result<
    Seq<u8>,
    Fault,
> {
    if s.kind == CLUSTER_TYPE_PLAIN {
        let at = s.physical * fs.block_size + (from - s.start);
        if at > u64::MAX {
            fail("EROFS block offset overflow"@)
        } else {
            disk_read(d, at, to - from)
        }
    } else {
        match segment_data(fs, d, s) {
            Err(e) => Err(e),
            Ok(x) => Ok(x.subrange(from - s.start, to - s.start)),
        }
    }
}

/// `out`, which stands for the file from `offset` on, with the segments put
/// in place that reach into it, and how far they reach (at least `done`).
pub open spec fn ranged(
    fs: Superblock,
    d: Seq<u8>,
    segs: Seq<Segment>,
    offset: int,
    out: Seq<u8>,
    done: int,
) -> Result<(Seq<u8>, int), Fault>
    decreases segs.len(),
{
    if segs.len() == 0 {
        Ok((out, done))
    } else {
        let s = segs[0];
        let from = greatest(offset, s.start as int);
        let to = least(offset + out.len(), s.end as int);
        if from >= to {
            ranged(fs, d, segs.drop_first(), offset, out, done)
        } else {
            match segment_part(fs, d, s, from, to) {
                Err(e) => Err(e),
                Ok(x) => {
                    let next = splice(out, from - offset, x);
                    let reach = greatest(done, to - offset);
                    if reach >= out.len() {
                        Ok((next, reach))
                    } else {
                        ranged(fs, d, segs.drop_first(), offset, next, reach)
                    }
                },
            }
        }
    }
}

/// `n` bytes from `offset` on of a compressed file, as far as segments reach.
pub open spec fn compact_range(fs: Superblock, d: Seq<u8>, inode: Inode, offset: int, n: int) -> Result<
    Seq<u8>,
    Fault,
> {
    match index_of(fs, d, inode) {
        Err(e) => Err(e),
        Ok(entries) => match segments_from(entries, inode, cluster_size(fs, inode), 0, None) {
            Err(e) => Err(e),
            Ok(segs) => match ranged(fs, d, segs, offset, zeros(n), 0) {
                Err(e) => Err(e),
                Ok((out, done)) => Ok(out.take(done)),
            },
        },
    }
}

/// What reading at most `len` bytes from `offset` on yields.
#[verifier::opaque]
pub open spec fn range_of(fs: Superblock, d: Seq<u8>, inode: Inode, offset: int, len: int) -> Result<
    Seq<u8>,
    Fault,
> {
    let n = least(inode.size - offset, len);
    if offset > inode.size {
        fail("EROFS read past end of file"@)
    } else if n == 0 {
        Ok(Seq::empty())
    } else if inode.layout == LAYOUT_PLAIN {
        let at = inode.raw_blkaddr * fs.block_size + offset;
        if at > u64::MAX {
            fail("EROFS block offset overflow"@)
        } else {
            disk_read(d, at, n)
        }
    } else if inode.layout == LAYOUT_INLINE {
        inline_range(fs, d, inode, offset, n)
    } else if inode.layout == LAYOUT_COMPRESSED_COMPACT {
        compact_range(fs, d, inode, offset, n)
    } else {
        fail(bad_layout(inode.layout))
    }
}

fn read_inline_range<S: ByteSource>(
    fs: &Superblock,
    image: &Image<S>,
    inode: &Inode,
    offset: u64,
    n: usize,
) -> (r: Result<Vec<u8>, Error>)
    requires
        image.wf(),
        fs.wf(),
        0 < n,
        offset + n <= inode.size,
    ensures
        told(
            image.faulty(),
            r,
            inline_range(*fs, image.disk(), *inode, offset as int, n as int),
        ),
{
    proof {
        raw_bound(*fs, *inode);
        full_bound(*fs, inode.size as int);
    }
    let full: u64 = if inode.raw_blkaddr == 0 {
        0
    } else {
        inode.size / fs.block_size * fs.block_size
    };
    let first: usize = if offset < full {
        if full - offset < n as u64 {
            (full - offset) as usize
        } else {
            n
        }
    } else {
        0
    };
    let mut data: Vec<u8> = Vec::new();
    if first > 0 {
        let raw = inode.raw_blkaddr as u64 * fs.block_size;
        let at = match raw.checked_add(offset) {
            Some(v) => v,
            None => {
                return Err(Error::invalid("read range overflow"));
            },
        };
        data = image.read_at(at, first)?;
    }
    if first >= n {
        return Ok(data);
    }
    let at = match inode.data_offset.checked_add(offset + first as u64 - full) {
        Some(v) => v,
        None => {
            return Err(Error::invalid("EROFS offset overflow"));
        },
    };
    let tail = image.read_at(at, n - first)?;
    crate::buf::push_bytes(&mut data, &tail);
    Ok(data)
}

fn read_part<S: ByteSource>(fs: &Superblock, image: &Image<S>, s: &Segment, from: u64, to: u64) -> (r:
    Result<Vec<u8>, Error>)
    requires
        image.wf(),
        fs.wf(),
        s.start <= from < to <= s.end,
        s.end - s.start <= usize::MAX || s.kind == CLUSTER_TYPE_PLAIN,
        to - from <= usize::MAX,
        s.compressed_blocks <= super::compress::MAX_CLUSTER_BLOCKS,
    ensures
        told(
            image.faulty(),
            r,
            segment_part(*fs, image.disk(), *s, from as int, to as int),
        ),
        r matches Ok(v) ==> v@.len() == to - from,
{
    proof {
        reveal(segment_part);
    }
    if s.kind == CLUSTER_TYPE_PLAIN {
        assert(s.physical * fs.block_size >= 0) by (nonlinear_arith);
        let base = match s.physical.checked_mul(fs.block_size) {
            Some(v) => v,
            None => {
                return Err(Error::invalid("EROFS block offset overflow"));
            },
        };
        let at = match base.checked_add(from - s.start) {
            Some(v) => v,
            None => {
                return Err(Error::invalid("EROFS block offset overflow"));
            },
        };
        image.read_at(at, (to - from) as usize)
    } else {
        let x = read_segment(fs, image, s)?;
        Ok(
            crate::buf::copy_range(
                &x,
                (from - s.start) as usize,
                (to - s.start) as usize,
            ),
        )
    }
}

fn read_compact_range<S: ByteSource>(
    fs: &Superblock,
    image: &Image<S>,
    inode: &Inode,
    offset: u64,
    n: usize,
) -> (r: Result<Vec<u8>, Error>)
    requires
        image.wf(),
        fs.wf(),
        inode.cluster_bits < 8,
        0 < n,
        offset + n <= inode.size,
    ensures
        told(
            image.faulty(),
            r,
            compact_range(*fs, image.disk(), *inode, offset as int, n as int),
        ),
{
    let index = compact_index(fs, image, inode)?;
    let segs = segments(&index, inode)?;
    let ghost d = image.disk();
    let mut out = zeroed(n);
    let mut done: usize = 0;
    let mut i: usize = 0;
    let ghost whole = ranged(*fs, d, segs@, offset as int, zeros(n as int), 0);
    assert(segs@.skip(0) =~= segs@);
    while i < segs.len()
        invariant_except_break
            whole == ranged(*fs, d, segs@.skip(i as int), offset as int, out@, done as int),
        invariant
            i <= segs@.len(),
            image.wf(),
            fs.wf(),
            d == image.disk(),
            out@.len() == n,
            done <= n,
            offset + n <= inode.size,
            forall|k: int|
                0 <= k < segs@.len() ==> sound(#[trigger] segs@[k], *inode) && segs@[k].start
                    < segs@[k].end,
            whole == ranged(*fs, d, segs@, offset as int, zeros(n as int), 0),
            compact_range(*fs, d, *inode, offset as int, n as int) == (match whole {
                Err(e) => Err(e),
                Ok((out, done)) => Ok(out.take(done)),
            }),
        ensures
            whole == Ok::<(Seq<u8>, int), Fault>((out@, done as int)),
        decreases segs@.len() - i,
    {
        let s = segs[i];
        proof {
            let tail = segs@.skip(i as int);
            assert(tail[0] == s);
            assert(tail.drop_first() =~= segs@.skip(i + 1));
        }
        let stop = offset + n as u64;
        let from = if offset < s.start {
            s.start
        } else {
            offset
        };
        let to = if stop < s.end {
            stop
        } else {
            s.end
        };
        if from < to {
            let x = read_part(fs, image, &s, from, to)?;
            put(&mut out, (from - offset) as usize, &x);
            let reach = (to - offset) as usize;
            if done < reach {
                done = reach;
            }
            if done >= n {
                break ;
            }
        }
        i += 1;
    }
    out.truncate(done);
    assert(out@ =~= whole->Ok_0.0.take(done as int));
    Ok(out)
}

/// Read at most `len` bytes of a file from `offset` on. Only the clusters
/// that reach into the range are decoded.
pub fn read_range<S: ByteSource>(
    fs: &Superblock,
    image: &Image<S>,
    inode: &Inode,
    offset: u64,
    len: usize,
) -> (r: Result<Vec<u8>, Error>)
    requires
        image.wf(),
        fs.wf(),
        inode.cluster_bits < 8,
    ensures
        told(image.faulty(), r, range_of(*fs, image.disk(), *inode, offset as int, len as int)),
{
    proof {
        reveal(range_of);
    }
    if offset > inode.size {
        return Err(Error::invalid("EROFS read past end of file"));
    }
    let n: usize = if inode.size - offset < len as u64 {
        (inode.size - offset) as usize
    } else {
        len
    };
    if n == 0 {
        return Ok(Vec::new());
    }
    if inode.layout == LAYOUT_PLAIN {
        proof {
            raw_bound(*fs, *inode);
        }
        let raw = inode.raw_blkaddr as u64 * fs.block_size;
        match raw.checked_add(offset) {
            Some(at) => image.read_at(at, n),
            None => Err(Error::invalid("EROFS block offset overflow")),
        }
    } else if inode.layout == LAYOUT_INLINE {
        read_inline_range(fs, image, inode, offset, n)
    } else if inode.layout == LAYOUT_COMPRESSED_COMPACT {
        read_compact_range(fs, image, inode, offset, n)
    } else {
        Err(layout_error(inode.layout))
    }
}

/// The file up to `want` bytes, range after range from `done` on.
pub open spec fn prefix_from(fs: Superblock, d: Seq<u8>, inode: Inode, done: int, want: int) -> Result<
    Seq<u8>,
    Fault,
>
    decreases greatest(want - done, 0),
{
    if done >= want {
        Ok(Seq::empty())
    } else {
        match range_of(fs, d, inode, done, want - done) {
            Err(e) => Err(e),
            Ok(x) => if x.len() == 0 {
                Ok(Seq::empty())
            } else {
                match prefix_from(fs, d, inode, done + x.len(), want) {
                    Err(e) => Err(e),
                    Ok(rest) => Ok(x + rest),
                }
            },
        }
    }
}

/// The first `limit` bytes of a file.
pub open spec fn prefix_of(fs: Superblock, d: Seq<u8>, inode: Inode, limit: int) -> Result<
    Seq<u8>,
    Fault,
> {
    let want = least(inode.size as int, limit);
    if want > usize::MAX {
        fail("EROFS file is too large"@)
    } else {
        prefix_from(fs, d, inode, 0, want)
    }
}

/// Bounded prefix read (content sniffing) without decoding the tail.
pub fn read_prefix<S: ByteSource>(fs: &Superblock, image: &Image<S>, inode: &Inode, limit: u64) -> (r:
    Result<Vec<u8>, Error>)
    requires
        image.wf(),
        fs.wf(),
        inode.cluster_bits < 8,
    ensures
        told(image.faulty(), r, prefix_of(*fs, image.disk(), *inode, limit as int)),
{
    let wanted = if inode.size < limit {
        inode.size
    } else {
        limit
    };
    if wanted > usize::MAX as u64 {
        return Err(Error::invalid("EROFS file is too large"));
    }
    let want = wanted as usize;
    let ghost d = image.disk();
    let ghost whole = prefix_from(*fs, d, *inode, 0, want as int);
    let mut out: Vec<u8> = Vec::new();
    proof {
        if let Ok(rest) = whole {
            assert(out@ + rest =~= rest);
        }
    }
    while out.len() < want
        invariant
            image.wf(),
            fs.wf(),
            inode.cluster_bits < 8,
            d == image.disk(),
            want <= inode.size,
            whole == prefix_of(*fs, d, *inode, limit as int),
            whole == (match prefix_from(*fs, d, *inode, out@.len() as int, want as int) {
                Err(e) => Err(e),
                Ok(rest) => Ok(out@ + rest),
            }),
        decreases greatest(want - out@.len(), 0),
    {
        let x = read_range(fs, image, inode, out.len() as u64, want - out.len())?;
        if x.len() == 0 {
            assert(out@ + Seq::<u8>::empty() =~= out@);
            return Ok(out);
        }
        let ghost before = out@;
        crate::buf::push_bytes(&mut out, &x);
        proof {
            if let Ok(rest) = prefix_from(*fs, d, *inode, out@.len() as int, want as int) {
                assert(before + (x@ + rest) =~= out@ + rest);
            }
        }
    }
    assert(out@ + Seq::<u8>::empty() =~= out@);
    Ok(out)
}

// ---------------------------------------------------------------------
// Streaming
// ---------------------------------------------------------------------
/// The bytes of a segment, plain runs piece by piece.
pub open spec fn segment_stream(fs: Superblock, d: Seq<u8>, s: Segment) -> Result<Seq<u8>, Fault> {
    if s.kind == CLUSTER_TYPE_PLAIN {
        if s.physical * fs.block_size > u64::MAX {
            fail("EROFS block offset overflow"@)
        } else {
            pieces(d, s.physical * fs.block_size, s.end - s.start)
        }
    } else {
        segment_data(fs, d, s)
    }
}

/// The bytes of segments, one after the other.
pub open spec fn segments_stream(fs: Superblock, d: Seq<u8>, segs: Seq<Segment>) -> Result<
    Seq<u8>,
    Fault,
>
    decreases segs.len(),
{
    if segs.len() == 0 {
        Ok(Seq::empty())
    } else {
        match segment_stream(fs, d, segs[0]) {
            Err(e) => Err(e),
            Ok(x) => match segments_stream(fs, d, segs.drop_first()) {
                Err(e) => Err(e),
                Ok(rest) => Ok(x + rest),
            },
        }
    }
}

/// The file from `offset` on, quantum after quantum.
pub open spec fn quanta_from(fs: Superblock, d: Seq<u8>, inode: Inode, offset: int) -> Result<
    Seq<u8>,
    Fault,
>
    decreases greatest(inode.size - offset, 0),
{
    if offset >= inode.size {
        Ok(Seq::empty())
    } else {
        match range_of(fs, d, inode, offset, STREAM_CHUNK as int) {
            Err(e) => Err(e),
            Ok(x) => if x.len() == 0 {
                Ok(Seq::empty())
            } else {
                match quanta_from(fs, d, inode, offset + x.len()) {
                    Err(e) => Err(e),
                    Ok(rest) => Ok(x + rest),
                }
            },
        }
    }
}

/// What streaming a file yields.
pub open spec fn streamed(fs: Superblock, d: Seq<u8>, inode: Inode) -> Result<Seq<u8>, Fault> {
    if inode.layout == LAYOUT_PLAIN || inode.layout == LAYOUT_INLINE {
        quanta_from(fs, d, inode, 0)
    } else if inode.layout == LAYOUT_COMPRESSED_COMPACT {
        match index_of(fs, d, inode) {
            Err(e) => Err(e),
            Ok(entries) => match segments_from(entries, inode, cluster_size(fs, inode), 0, None) {
                Err(e) => Err(e),
                Ok(segs) => segments_stream(fs, d, segs),
            },
        }
    } else {
        fail(bad_layout(inode.layout))
    }
}

fn stream_segment<S: ByteSource, O: ByteSink>(
    fs: &Superblock,
    image: &Image<S>,
    s: &Segment,
    out: &mut O,
) -> (r: Result<(), Error>)
    requires
        image.wf(),
        fs.wf(),
        s.start <= s.end,
        s.kind != CLUSTER_TYPE_PLAIN ==> s.end - s.start <= usize::MAX,
        s.compressed_blocks <= super::compress::MAX_CLUSTER_BLOCKS,
    ensures
        final(out).full() == old(out).full(),
        match r {
            Ok(_) => segment_stream(*fs, image.disk(), *s) matches Ok(x) && final(out).written()
                == old(out).written() + x,
            Err(e) => segment_stream(*fs, image.disk(), *s) == Err::<Seq<u8>, Fault>(e@) || (
            e is Io && (image.faulty() || old(out).full())),
        },
{
    if s.kind == CLUSTER_TYPE_PLAIN {
        assert(s.physical * fs.block_size >= 0) by (nonlinear_arith);
        let base = match s.physical.checked_mul(fs.block_size) {
            Some(v) => v,
            None => {
                return Err(Error::invalid("EROFS block offset overflow"));
            },
        };
        stream_range(image, base, s.end - s.start, out)
    } else {
        let x = read_segment(fs, image, s)?;
        out.write(&x)
    }
}

fn stream_quanta<S: ByteSource, O: ByteSink>(
    fs: &Superblock,
    image: &Image<S>,
    inode: &Inode,
    out: &mut O,
) -> (r: Result<(), Error>)
    requires
        image.wf(),
        fs.wf(),
        inode.cluster_bits < 8,
    ensures
        final(out).full() == old(out).full(),
        match r {
            Ok(_) => quanta_from(*fs, image.disk(), *inode, 0) matches Ok(x) && final(out).written()
                == old(out).written() + x,
            Err(e) => quanta_from(*fs, image.disk(), *inode, 0) == Err::<Seq<u8>, Fault>(e@) || (
            e is Io && (image.faulty() || old(out).full())),
        },
{
    let ghost d = image.disk();
    let ghost whole = quanta_from(*fs, d, *inode, 0);
    let ghost mut got: Seq<u8> = Seq::empty();
    let mut offset: u64 = 0;
    assert(old(out).written() + got =~= old(out).written());
    proof {
        if let Ok(rest) = whole {
            assert(got + rest =~= rest);
        }
    }
    while offset < inode.size
        invariant
            image.wf(),
            fs.wf(),
            inode.cluster_bits < 8,
            d == image.disk(),
            whole == quanta_from(*fs, d, *inode, 0),
            out.full() == old(out).full(),
            out.written() == old(out).written() + got,
            whole == (match quanta_from(*fs, d, *inode, offset as int) {
                Err(e) => Err(e),
                Ok(rest) => Ok(got + rest),
            }),
        decreases inode.size - offset,
    {
        let x = read_range(fs, image, inode, offset, STREAM_CHUNK)?;
        if x.len() == 0 {
            assert(got + Seq::<u8>::empty() =~= got);
            return Ok(());
        }
        match out.write(&x) {
            Ok(_) => {},
            Err(e) => {
                return Err(e);
            },
        }
        proof {
            let before = got;
            got = before + x@;
            assert(out.written() =~= old(out).written() + got);
            if let Ok(rest) = quanta_from(*fs, d, *inode, offset + x@.len()) {
                assert(before + (x@ + rest) =~= got + rest);
            }
        }
        if x.len() as u64 >= inode.size - offset {
            offset = inode.size;
            assert(quanta_from(*fs, d, *inode, offset as int) == Ok::<Seq<u8>, Fault>(
                Seq::empty(),
            ));
        } else {
            offset = offset + x.len() as u64;
        }
    }
    assert(got + Seq::<u8>::empty() =~= got);
    Ok(())
}

/// Stream a whole file: plain runs pass through in bounded pieces, each
/// compressed cluster is decoded once.
pub fn read_data_streaming<S: ByteSource, O: ByteSink>(
    fs: &Superblock,
    image: &Image<S>,
    inode: &Inode,
    out: &mut O,
) -> (r: Result<(), Error>)
    requires
        image.wf(),
        fs.wf(),
        inode.cluster_bits < 8,
    ensures
        final(out).full() == old(out).full(),
        match r {
            Ok(_) => streamed(*fs, image.disk(), *inode) matches Ok(x) && final(out).written()
                == old(out).written() + x,
            Err(e) => streamed(*fs, image.disk(), *inode) == Err::<Seq<u8>, Fault>(e@) || (e is Io
                && (image.faulty() || old(out).full())),
        },
{
    if inode.layout == LAYOUT_PLAIN || inode.layout == LAYOUT_INLINE {
        return stream_quanta(fs, image, inode, out);
    }
    if inode.layout != LAYOUT_COMPRESSED_COMPACT {
        return Err(layout_error(inode.layout));
    }
    let index = compact_index(fs, image, inode)?;
    let segs = segments(&index, inode)?;
    stream_segments(fs, image, &segs, Ghost(*inode), out)
}

/// Stream segments, one after the other.
fn stream_segments<S: ByteSource, O: ByteSink>(
    fs: &Superblock,
    image: &Image<S>,
    segs: &Vec<Segment>,
    inode: Ghost<Inode>,
    out: &mut O,
) -> (r: Result<(), Error>)
    requires
        image.wf(),
        fs.wf(),
        forall|k: int|
            0 <= k < segs@.len() ==> sound(#[trigger] segs@[k], inode@) && segs@[k].start
                < segs@[k].end,
    ensures
        final(out).full() == old(out).full(),
        match r {
            Ok(_) => segments_stream(*fs, image.disk(), segs@) matches Ok(x) && final(
                out).written() == old(out).written() + x,
            Err(e) => segments_stream(*fs, image.disk(), segs@) == Err::<Seq<u8>, Fault>(e@) || (
            e is Io && (image.faulty() || old(out).full())),
        },
{
    let ghost d = image.disk();
    let ghost whole = segments_stream(*fs, d, segs@);
    let ghost mut got: Seq<u8> = Seq::empty();
    let mut i: usize = 0;
    assert(segs@.skip(0) =~= segs@);
    assert(old(out).written() + got =~= old(out).written());
    proof {
        if let Ok(rest) = whole {
            assert(got + rest =~= rest);
        }
    }
    while i < segs.len()
        invariant
            i <= segs@.len(),
            image.wf(),
            fs.wf(),
            d == image.disk(),
            whole == segments_stream(*fs, d, segs@),
            forall|k: int|
                0 <= k < segs@.len() ==> sound(#[trigger] segs@[k], inode@) && segs@[k].start
                    < segs@[k].end,
            out.full() == old(out).full(),
            out.written() == old(out).written() + got,
            whole == (match segments_stream(*fs, d, segs@.skip(i as int)) {
                Err(e) => Err(e),
                Ok(rest) => Ok(got + rest),
            }),
        decreases segs@.len() - i,
    {
        let s = segs[i];
        proof {
            let tail = segs@.skip(i as int);
            assert(tail[0] == s);
            assert(tail.drop_first() =~= segs@.skip(i + 1));
        }
        match stream_segment(fs, image, &s, out) {
            Ok(_) => {},
            Err(e) => {
                return Err(e);
            },
        }
        proof {
            let x = segment_stream(*fs, d, s)->Ok_0;
            let before = got;
            got = before + x;
            assert(out.written() =~= old(out).written() + got);
            if let Ok(rest) = segments_stream(*fs, d, segs@.skip(i + 1)) {
                assert(before + (x + rest) =~= got + rest);
            }
        }
        i += 1;
    }
    assert(segs@.skip(i as int) =~= Seq::empty());
    assert(got + Seq::<u8>::empty() =~= got);
    Ok(())
}

} // verus!
