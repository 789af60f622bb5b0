//! The content of files, block by block.
use super::ext4_source::Ext4Source;
use super::node::{Node, NodePayload, NodeView, PayloadView};
use super::source::Source;
use crate::buf::{copy_range, pad_to, push_bytes, put, splice, zeroed, zeros};
use crate::error::{fail, told, Error, Fault};
use crate::fs::erofs;
use crate::fs::erofs::compress::{
    cluster_size, compact_index, index_of, read_segment, segment_data, segments, segments_from,
    Segment, CLUSTER_TYPE_PLAIN,
};
use crate::fs::erofs::inode::{
    self, bad_layout, inode_of, range_of, ranged, read_range, segment_part, Inode,
};
use crate::fs::ext4;
use crate::image::{disk_read, ByteSource};
use crate::math::{greatest, least};
use crate::text::with_number;
use vstd::prelude::*;

verus! {

/// The image that the content of files comes from.
pub enum Volume {
    Erofs { sb: erofs::Superblock, d: Seq<u8> },
    Ext4 { sb: ext4::Superblock, d: Seq<u8> },
}

/// `len` bytes from `offset` on, with zeros behind the end.
pub open spec fn window(data: Seq<u8>, offset: int, len: int) -> Seq<u8> {
    Seq::new(
        len as nat,
        |i: int|
            if offset + i < data.len() {
                data[offset + i]
            } else {
                0
            },
    )
}

/// `len` bytes from `offset` on, with zeros behind the end.
pub fn slice_serve(data: &[u8], offset: u64, len: usize) -> (out: Vec<u8>)
    ensures
        out@ == window(data@, offset as int, len as int),
{
    if offset >= data.len() as u64 {
        let out = zeroed(len);
        assert(out@ =~= window(data@, offset as int, len as int));
        return out;
    }
    let from = offset as usize;
    let to = if data.len() - from < len {
        data.len()
    } else {
        from + len
    };
    let mut out = copy_range(data, from, to);
    pad_to(&mut out, len);
    assert(out@ =~= window(data@, offset as int, len as int));
    out
}

/// The rest of a range of a file, read as far as the file goes.
pub open spec fn filled(sb: erofs::Superblock, d: Seq<u8>, fi: Inode, offset: int, n: int) -> Result<
    Seq<u8>,
    Fault,
>
    decreases greatest(n, 0),
{
    if n <= 0 {
        Ok(Seq::empty())
    } else {
        match range_of(sb, d, fi, offset, n) {
            Err(e) => Err(e),
            Ok(x) => if x.len() == 0 {
                Ok(zeros(n))
            } else {
                match filled(sb, d, fi, offset + x.len(), n - x.len()) {
                    Err(e) => Err(e),
                    Ok(rest) => Ok(x + rest),
                }
            },
        }
    }
}

/// The segments of a compressed file.
pub open spec fn file_segments(sb: erofs::Superblock, d: Seq<u8>, nid: u64) -> Result<
    Seq<Segment>,
    Fault,
> {
    match inode_of(sb, d, nid) {
        Err(e) => Err(e),
        Ok(fi) => match index_of(sb, d, fi) {
            Err(e) => Err(e),
            Ok(entries) => segments_from(entries, fi, cluster_size(sb, fi), 0, None),
        },
    }
}

/// A segment holds the byte at `at`.
pub open spec fn covered(segs: Seq<Segment>, at: int) -> bool {
    exists|k: int| 0 <= k < segs.len() && (#[trigger] segs[k]).start <= at < segs[k].end
}

/// The last byte of a cluster of a file.
pub open spec fn cluster_last(block_size: int, size: int, lcn: int) -> int {
    least((lcn + 1) * block_size, size) - 1
}

/// Every cluster of a file is mapped up to its end.
pub open spec fn reaches(segs: Seq<Segment>, block_size: int, size: int) -> bool {
    forall|lcn: int|
        0 <= lcn && lcn * block_size < size ==> covered(
            segs,
            #[trigger] cluster_last(block_size, size, lcn),
        )
}

/// Whether the content of a file can be had cluster by cluster.
pub open spec fn clusters_there(sb: erofs::Superblock, d: Seq<u8>, n: NodeView) -> Result<
    (),
    Fault,
> {
    if n.is_dir() {
        Ok(())
    } else {
        match n.payload {
            PayloadView::Memory(data) => if data.len() < n.data_size {
                fail("file node data is too short"@)
            } else {
                Ok(())
            },
            _ => if n.layout != 3 || n.data_size == 0 {
                Ok(())
            } else {
                match file_segments(sb, d, n.original_nid) {
                    Err(e) => Err(e),
                    Ok(segs) => if reaches(segs, sb.block_size as int, n.data_size as int) {
                        Ok(())
                    } else {
                        fail("short EROFS source file read"@)
                    },
                }
            },
        }
    }
}

/// A range of a file of an EROFS image.
pub open spec fn erofs_range(
    sb: erofs::Superblock,
    d: Seq<u8>,
    n: NodeView,
    offset: int,
    len: int,
) -> Result<Seq<u8>, Fault> {
    if n.layout == 0 {
        let at = n.raw_block * sb.block_size + offset;
        if at > u64::MAX {
            fail("EROFS block offset overflow"@)
        } else {
            disk_read(d, at, len)
        }
    } else if n.layout == 2 {
        match inode_of(sb, d, n.original_nid) {
            Err(e) => Err(e),
            Ok(fi) => filled(sb, d, fi, offset, len),
        }
    } else if n.layout == 3 {
        match file_segments(sb, d, n.original_nid) {
            Err(e) => Err(e),
            Ok(segs) => match ranged(sb, d, segs, offset, zeros(len), 0) {
                Err(e) => Err(e),
                Ok((out, _)) => Ok(out),
            },
        }
    } else {
        fail(bad_layout(n.layout))
    }
}

/// The first mapped range that holds a block.
pub open spec fn extent_with(s: Seq<(u64, u64, u64)>, block: int, i: int) -> Option<int>
    decreases s.len() - i,
{
    if i >= s.len() {
        None
    } else if s[i].0 <= block < s[i].0 + s[i].2 {
        Some(i)
    } else {
        extent_with(s, block, i + 1)
    }
}

/// A range inside one block of a file of an ext4 image.
pub open spec fn ext4_piece(
    sb: ext4::Superblock,
    d: Seq<u8>,
    extents: Seq<(u64, u64, u64)>,
    offset: int,
    len: int,
) -> Result<Seq<u8>, Fault> {
    let bs = sb.block_size as int;
    match extent_with(extents, offset / bs, 0) {
        None => Ok(zeros(len)),
        Some(i) => {
            let at = (extents[i].1 + (offset / bs - extents[i].0)) * bs + offset % bs;
            if at > u64::MAX {
                fail("ext4 block offset overflow"@)
            } else {
                disk_read(d, at, len)
            }
        },
    }
}

/// A range of a file of an ext4 image: what no range maps reads as zeros.
pub open spec fn ext4_range(
    sb: ext4::Superblock,
    d: Seq<u8>,
    extents: Seq<(u64, u64, u64)>,
    offset: int,
    len: int,
) -> Result<Seq<u8>, Fault>
    decreases greatest(len, 0),
{
    let bs = sb.block_size as int;
    let n = least(bs - offset % bs, len);
    if offset + len > u64::MAX {
        fail("ext4 block offset overflow"@)
    } else if len <= 0 || n <= 0 {
        Ok(Seq::empty())
    } else {
        match ext4_piece(sb, d, extents, offset, n) {
            Err(e) => Err(e),
            Ok(x) => match ext4_range(sb, d, extents, offset + n, len - n) {
                Err(e) => Err(e),
                Ok(rest) => Ok(x + rest),
            },
        }
    }
}

/// A range of the content of a node.
pub open spec fn served(v: Volume, n: NodeView, offset: int, len: int) -> Result<Seq<u8>, Fault> {
    match n.payload {
        PayloadView::Memory(data) => Ok(window(data, offset, len)),
        _ => match v {
            Volume::Erofs { sb, d } => erofs_range(sb, d, n, offset, len),
            Volume::Ext4 { sb, d } => ext4_range(sb, d, n.extents, offset, len),
        },
    }
}

/// A source of the content of files.
pub trait BlockSource {
    /// The image behind it.
    spec fn volume(&self) -> Volume;

    /// Whether reading may fail.
    spec fn unreliable(&self) -> bool;

    spec fn wf(&self) -> bool;

    /// `len` bytes of the content of a node from `offset` on.
    fn read_node_block(&mut self, node: &Node, offset: u64, len: usize) -> (r: Result<
        Vec<u8>,
        Error,
    >)
        requires
            old(self).wf(),
        ensures
            final(self).wf(),
            final(self).volume() == old(self).volume(),
            final(self).unreliable() == old(self).unreliable(),
            told(
                old(self).unreliable(),
                r,
                served(old(self).volume(), node@, offset as int, len as int),
            ),
            r matches Ok(v) ==> v@.len() == len,
    ;
}

// ---------------------------------------------------------------------
// ext4
// ---------------------------------------------------------------------
fn find_extent(s: &Vec<(u64, u64, u64)>, block: u64) -> (r: Option<usize>)
    ensures
        match r {
            Some(i) => i < s@.len() && extent_with(s@, block as int, 0) == Some(i as int)
                && s@[i as int].0 <= block < s@[i as int].0 + s@[i as int].2,
            None => extent_with(s@, block as int, 0) is None,
        },
{
    let mut i: usize = 0;
    while i < s.len()
        invariant
            i <= s@.len(),
            extent_with(s@, block as int, 0) == extent_with(s@, block as int, i as int),
        decreases s.len() - i,
    {
        let e = s[i];
        if e.0 <= block && block - e.0 < e.2 {
            return Some(i);
        }
        i += 1;
    }
    None
}

fn read_piece<S: ByteSource>(
    source: &Ext4Source<S>,
    extents: &Vec<(u64, u64, u64)>,
    offset: u64,
    len: usize,
) -> (r: Result<Vec<u8>, Error>)
    requires
        source.wf(),
    ensures
        told(
            source.reader.faulty(),
            r,
            ext4_piece(
                source.profile,
                source.reader.disk(),
                extents@,
                offset as int,
                len as int,
            ),
        ),
        r matches Ok(v) ==> v@.len() == len,
{
    let bs = source.profile.block_size;
    let block = offset / bs;
    match find_extent(extents, block) {
        None => Ok(zeroed(len)),
        Some(i) => {
            let e = extents[i];
            let ghost p = e.1 + (block - e.0);
            assert(0 <= p * bs <= (u64::MAX + u64::MAX) * 0x10_0000) by (nonlinear_arith)
                requires
                    0 <= p <= u64::MAX + u64::MAX,
                    0 <= bs <= 0x10_0000,
            ;
            let at = (e.1 as u128 + (block - e.0) as u128) * bs as u128 + (offset % bs) as u128;
            if at > u64::MAX as u128 {
                return Err(Error::invalid("ext4 block offset overflow"));
            }
            source.reader.read_at(at as u64, len)
        },
    }
}

proof fn extent_found(s: Seq<(u64, u64, u64)>, block: int, i: int)
    requires
        0 <= i,
    ensures
        extent_with(s, block, i) matches Some(k) ==> i <= k < s.len() && s[k].0 <= block,
    decreases s.len() - i,
{
    if i < s.len() && !(s[i].0 <= block < s[i].0 + s[i].2) {
        extent_found(s, block, i + 1);
    }
}

proof fn ext4_range_len(
    sb: ext4::Superblock,
    d: Seq<u8>,
    extents: Seq<(u64, u64, u64)>,
    offset: int,
    len: int,
)
    requires
        len >= 0,
        offset >= 0,
        sb.block_size > 0,
    ensures
        ext4_range(sb, d, extents, offset, len) matches Ok(x) ==> x.len() == len,
    decreases len,
{
    let bs = sb.block_size as int;
    let n = least(bs - offset % bs, len);
    if len > 0 {
        ext4_range_len(sb, d, extents, offset + n, len - n);
        extent_found(extents, offset / bs, 0);
        match extent_with(extents, offset / bs, 0) {
            Some(i) => {
                let k = extents[i].1 + (offset / bs - extents[i].0);
                assert(k * bs >= 0) by (nonlinear_arith)
                    requires
                        k >= 0,
                        bs > 0,
                ;
            },
            None => {},
        }
    }
}

impl<S: ByteSource> BlockSource for Ext4Source<S> {
    open spec fn volume(&self) -> Volume {
        Volume::Ext4 { sb: self.profile, d: self.reader.disk() }
    }

    open spec fn unreliable(&self) -> bool {
        self.reader.faulty()
    }

    open spec fn wf(&self) -> bool {
        Ext4Source::wf(*self)
    }

    fn read_node_block(&mut self, node: &Node, offset: u64, len: usize) -> (r: Result<
        Vec<u8>,
        Error,
    >) {
        if let NodePayload::Memory(data) = &node.payload {
            return Ok(slice_serve(data, offset, len));
        }
        if len as u64 > u64::MAX - offset {
            return Err(Error::invalid("ext4 block offset overflow"));
        }
        let bs = self.profile.block_size;
        let ghost sb = self.profile;
        let ghost d = self.reader.disk();
        let ghost whole = ext4_range(sb, d, node.extents@, offset as int, len as int);
        let mut out: Vec<u8> = Vec::new();
        proof {
            if let Ok(rest) = whole {
                assert(out@ + rest =~= rest);
            }
            ext4_range_len(sb, d, node.extents@, offset as int, len as int);
        }
        while out.len() < len
            invariant
                self.wf(),
                sb == self.profile,
                d == self.reader.disk(),
                bs == sb.block_size,
                out@.len() <= len,
                offset + len <= u64::MAX,
                self.volume() == old(self).volume(),
                self.unreliable() == old(self).unreliable(),
                self.unreliable() == self.reader.faulty(),
                whole == served(old(self).volume(), node@, offset as int, len as int),
                whole == (match ext4_range(
                    sb,
                    d,
                    node.extents@,
                    offset + out@.len(),
                    len - out@.len(),
                ) {
                    Err(e) => Err(e),
                    Ok(rest) => Ok(out@ + rest),
                }),
            decreases len - out@.len(),
        {
            let at = offset + out.len() as u64;
            let room = bs - at % bs;
            let left = len - out.len();
            let n: usize = if room < left as u64 {
                room as usize
            } else {
                left
            };
            let x = read_piece(self, &node.extents, at, n)?;
            let ghost before = out@;
            push_bytes(&mut out, &x);
            proof {
                match ext4_range(
                    sb,
                    d,
                    node.extents@,
                    offset + out@.len(),
                    len - out@.len(),
                ) {
                    Ok(rest) => {
                        assert(before + (x@ + rest) =~= out@ + rest);
                    },
                    Err(_) => {},
                }
            }
        }
        proof {
            assert(out@ + Seq::<u8>::empty() =~= out@);
        }
        Ok(out)
    }
}

// ---------------------------------------------------------------------
// EROFS
// ---------------------------------------------------------------------
/// The content of files of an EROFS image. The segments of the compressed
/// file that was read last are kept, and so is the cluster that was decoded
/// last.
pub struct ErofsBlockSource<'a, S> {
    source: &'a Source<S>,
    /// The file whose segments are kept.
    file: Option<u64>,
    segments: Vec<Segment>,
    /// Segments in front of this one end at or before `reached`.
    first: usize,
    reached: u64,
    /// The segment whose decoded bytes are kept.
    decoded: Option<usize>,
    data: Vec<u8>,
}

/// A segment that can be read.
pub open spec fn readable(s: Segment) -> bool {
    &&& s.start < s.end
    &&& s.kind != CLUSTER_TYPE_PLAIN ==> s.end - s.start <= usize::MAX
    &&& s.compressed_blocks <= crate::fs::erofs::compress::MAX_CLUSTER_BLOCKS
}

/// Segments that end before a range starts play no part in it.
proof fn skip_segments(
    sb: erofs::Superblock,
    d: Seq<u8>,
    segs: Seq<Segment>,
    offset: int,
    out: Seq<u8>,
    done: int,
    k: int,
)
    requires
        0 <= k <= segs.len(),
        forall|j: int| 0 <= j < k ==> (#[trigger] segs[j]).end <= offset,
    ensures
        ranged(sb, d, segs, offset, out, done) == ranged(sb, d, segs.skip(k), offset, out, done),
    decreases k,
{
    if k == 0 {
        assert(segs.skip(0) =~= segs);
    } else {
        let t = segs.drop_first();
        assert(segs[0].end <= offset);
        assert forall|j: int| 0 <= j < k - 1 implies (#[trigger] t[j]).end <= offset by {
            assert(t[j] == segs[j + 1]);
        }
        skip_segments(sb, d, t, offset, out, done, k - 1);
        assert(t.skip(k - 1) =~= segs.skip(k));
    }
}

/// Looks for a segment from `from` up to `to` that holds the byte at `at`.
fn find_cover(segs: &Vec<Segment>, at: u64, from: usize, to: usize) -> (r: Option<usize>)
    requires
        from <= to <= segs@.len(),
    ensures
        match r {
            Some(k) => from <= k < to && segs@[k as int].start <= at < segs@[k as int].end,
            None => forall|k: int|
                from <= k < to ==> !((#[trigger] segs@[k]).start <= at < segs@[k].end),
        },
{
    let mut i = from;
    while i < to
        invariant
            from <= i <= to <= segs@.len(),
            forall|k: int| from <= k < i ==> !((#[trigger] segs@[k]).start <= at < segs@[k].end),
        decreases to - i,
    {
        if segs[i].start <= at && at < segs[i].end {
            return Some(i);
        }
        i += 1;
    }
    None
}

/// Tells whether every cluster of a file is mapped up to its end.
fn check_reach(segs: &Vec<Segment>, block_size: u64, size: u64) -> (b: bool)
    requires
        0 < block_size,
    ensures
        b == reaches(segs@, block_size as int, size as int),
{
    let bs = block_size;
    let mut hint: usize = 0;
    let mut pos: u64 = 0;
    let ghost mut lcn: int = 0;
    while pos < size
        invariant
            0 < bs == block_size,
            0 <= lcn,
            pos == least(lcn * bs, size as int),
            hint <= segs@.len(),
            forall|j: int|
                0 <= j < lcn ==> covered(segs@, #[trigger] cluster_last(bs as int, size as int, j)),
        decreases size - pos,
    {
        let last = if size - pos > bs {
            pos + (bs - 1)
        } else {
            size - 1
        };
        assert((lcn + 1) * bs == lcn * bs + bs) by (nonlinear_arith);
        assert(last == cluster_last(bs as int, size as int, lcn));
        let found = match find_cover(segs, last, hint, segs.len()) {
            Some(k) => Some(k),
            None => find_cover(segs, last, 0, hint),
        };
        match found {
            Some(k) => {
                hint = k;
            },
            None => {
                assert(!covered(segs@, last as int));
                return false;
            },
        }
        assert(covered(segs@, last as int));
        pos = last + 1;
        proof {
            lcn = lcn + 1;
        }
    }
    assert forall|j: int| 0 <= j && j * bs < size implies covered(
        segs@,
        #[trigger] cluster_last(bs as int, size as int, j),
    ) by {
        assert(j < lcn) by (nonlinear_arith)
            requires
                j * bs < size,
                size <= lcn * bs,
                0 < bs,
        ;
    }
    true
}

impl<'a, S: ByteSource> ErofsBlockSource<'a, S> {
    /// The image.
    pub closed spec fn origin(self) -> Source<S> {
        *self.source
    }

    /// What is kept is what the image holds.
    pub closed spec fn kept(self) -> bool {
        let sb = self.source.sb;
        let d = self.source.reader.disk();
        &&& self.file matches Some(nid) ==> file_segments(sb, d, nid) == Ok::<Seq<Segment>, Fault>(
            self.segments@,
        )
        &&& forall|k: int| 0 <= k < self.segments@.len() ==> readable(#[trigger] self.segments@[k])
        &&& self.first <= self.segments@.len()
        &&& forall|k: int| 0 <= k < self.first ==> (#[trigger] self.segments@[k]).end <= self.reached
        &&& self.decoded matches Some(i) ==> {
            &&& i < self.segments@.len()
            &&& self.segments@[i as int].kind != CLUSTER_TYPE_PLAIN
            &&& segment_data(sb, d, self.segments@[i as int]) == Ok::<Seq<u8>, Fault>(self.data@)
            &&& self.data@.len() == self.segments@[i as int].end - self.segments@[i as int].start
        }
    }

    /// A source that keeps no file yet.
    pub fn new(source: &'a Source<S>) -> (r: ErofsBlockSource<'a, S>)
        requires
            source.wf(),
        ensures
            r.wf(),
            r.origin() == *source,
    {
        ErofsBlockSource {
            source,
            file: None,
            segments: Vec::new(),
            first: 0,
            reached: 0,
            decoded: None,
            data: Vec::new(),
        }
    }

    /// Checks that the content of a file can be had cluster by cluster.
    pub fn check_clusters(&mut self, node: &Node) -> (r: Result<(), Error>)
        requires
            old(self).wf(),
        ensures
            final(self).wf(),
            final(self).origin() == old(self).origin(),
            told(
                old(self).unreliable(),
                r,
                clusters_there(old(self).origin().sb, old(self).origin().reader.disk(), node@),
            ),
    {
        if node.is_dir() {
            return Ok(());
        }
        if let NodePayload::Memory(data) = &node.payload {
            if (data.len() as u64) < node.data_size {
                return Err(Error::invalid("file node data is too short"));
            }
            return Ok(());
        }
        if node.layout != 3 || node.data_size == 0 {
            return Ok(());
        }
        self.load(node.original_nid)?;
        if check_reach(&self.segments, self.source.sb.block_size, node.data_size) {
            Ok(())
        } else {
            Err(Error::invalid("short EROFS source file read"))
        }
    }

    fn load(&mut self, nid: u64) -> (r: Result<(), Error>)
        requires
            old(self).wf(),
        ensures
            final(self).wf(),
            final(self).source == old(self).source,
            match r {
                Ok(_) => final(self).file == Some(nid) && file_segments(
                    old(self).source.sb,
                    old(self).source.reader.disk(),
                    nid,
                ) == Ok::<Seq<Segment>, Fault>(final(self).segments@),
                Err(e) => file_segments(
                    old(self).source.sb,
                    old(self).source.reader.disk(),
                    nid,
                ) == Err::<Seq<Segment>, Fault>(e@) || (old(self).source.reader.faulty() && e is Io),
            },
    {
        if let Some(have) = self.file {
            if have == nid {
                return Ok(());
            }
        }
        let fi = inode::read(&self.source.sb, &self.source.reader, nid)?;
        let index = compact_index(&self.source.sb, &self.source.reader, &fi)?;
        let segs = segments(&index, &fi)?;
        self.decoded = None;
        self.first = 0;
        self.reached = 0;
        self.segments = segs;
        self.file = Some(nid);
        Ok(())
    }

    fn part(&mut self, i: usize, from: u64, to: u64) -> (r: Result<Vec<u8>, Error>)
        requires
            old(self).wf(),
            i < old(self).segments@.len(),
            old(self).segments@[i as int].start <= from < to <= old(self).segments@[i as int].end,
            to - from <= usize::MAX,
        ensures
            final(self).wf(),
            final(self).source == old(self).source,
            final(self).file == old(self).file,
            final(self).segments@ == old(self).segments@,
            final(self).first == old(self).first,
            final(self).reached == old(self).reached,
            told(
                old(self).source.reader.faulty(),
                r,
                segment_part(
                    old(self).source.sb,
                    old(self).source.reader.disk(),
                    old(self).segments@[i as int],
                    from as int,
                    to as int,
                ),
            ),
            r matches Ok(v) ==> v@.len() == to - from,
    {
        proof {
            reveal(segment_part);
        }
        let s = self.segments[i];
        assert(readable(s));
        let bs = self.source.sb.block_size;
        if s.kind == CLUSTER_TYPE_PLAIN {
            assert(s.physical * bs >= 0) by (nonlinear_arith)
                requires
                    s.physical >= 0,
                    bs >= 0,
            ;
            let base = match s.physical.checked_mul(bs) {
                Some(v) => v,
                None => {
                    return Err(Error::invalid("EROFS block offset overflow"));
                },
            };
            let at = match base.checked_add(from - s.start) {
                Some(v) => v,
                None => {
                    return Err(Error::invalid("EROFS block offset overflow"));
                },
            };
            return self.source.reader.read_at(at, (to - from) as usize);
        }
        let hit = match self.decoded {
            Some(k) => k == i,
            None => false,
        };
        if !hit {
            let data = read_segment(&self.source.sb, &self.source.reader, &s)?;
            self.data = data;
            self.decoded = Some(i);
        }
        Ok(copy_range(&self.data, (from - s.start) as usize, (to - s.start) as usize))
    }

    fn read_compressed(&mut self, nid: u64, offset: u64, len: usize) -> (r: Result<Vec<u8>, Error>)
        requires
            old(self).wf(),
        ensures
            final(self).wf(),
            final(self).source == old(self).source,
            told(
                old(self).source.reader.faulty(),
                r,
                match file_segments(
                    old(self).source.sb,
                    old(self).source.reader.disk(),
                    nid,
                ) {
                    Err(e) => Err(e),
                    Ok(segs) => match ranged(
                        old(self).source.sb,
                        old(self).source.reader.disk(),
                        segs,
                        offset as int,
                        zeros(len as int),
                        0,
                    ) {
                        Err(e) => Err(e),
                        Ok((out, _)) => Ok(out),
                    },
                },
            ),
            r matches Ok(v) ==> v@.len() == len,
    {
        self.load(nid)?;
        let ghost sb = self.source.sb;
        let ghost d = self.source.reader.disk();
        let ghost segs = self.segments@;
        if offset < self.reached {
            self.first = 0;
        }
        self.reached = offset;
        while self.first < self.segments.len() && self.segments[self.first].end <= offset
            invariant
                self.wf(),
                self.source == old(self).source,
                self.segments@ == segs,
                self.reached == offset,
                self.file == Some(nid),
            decreases self.segments@.len() - self.first,
        {
            self.first = self.first + 1;
        }
        let mut out = zeroed(len);
        if len == 0 {
            proof {
                empty_range(sb, d, segs, offset as int, 0);
            }
            return Ok(out);
        }
        let mut done: usize = 0;
        let mut i = self.first;
        let ghost whole = ranged(sb, d, segs, offset as int, zeros(len as int), 0);
        proof {
            skip_segments(sb, d, segs, offset as int, zeros(len as int), 0, i as int);
        }
        while i < self.segments.len()
            invariant_except_break
                whole == ranged(sb, d, segs.skip(i as int), offset as int, out@, done as int),
            invariant
                self.wf(),
                self.source == old(self).source,
                self.segments@ == segs,
                self.file == Some(nid),
                i <= segs.len(),
                sb == self.source.sb,
                d == self.source.reader.disk(),
                out@.len() == len,
                done <= len,
                len > 0,
                forall|k: int| 0 <= k < segs.len() ==> readable(#[trigger] segs[k]),
                file_segments(sb, d, nid) == Ok::<Seq<Segment>, Fault>(segs),
                whole == ranged(sb, d, segs, offset as int, zeros(len as int), 0),
            ensures
                whole == Ok::<(Seq<u8>, int), Fault>((out@, done as int)),
            decreases segs.len() - i,
        {
            let s = self.segments[i];
            proof {
                let tail = segs.skip(i as int);
                assert(tail[0] == s);
                assert(tail.drop_first() =~= segs.skip(i + 1));
                assert(readable(segs[i as int]));
            }
            let from = if offset < s.start {
                s.start
            } else {
                offset
            };
            // The end of the range, or of what can be addressed.
            let to = if s.end <= offset || s.end - offset <= len as u64 {
                s.end
            } else {
                offset + len as u64
            };
            if from < to {
                let x = self.part(i, from, to)?;
                put(&mut out, (from - offset) as usize, &x);
                let reach = (to - offset) as usize;
                if done < reach {
                    done = reach;
                }
                if done >= len {
                    break ;
                }
            }
            i += 1;
        }
        Ok(out)
    }

    fn read_filled(&mut self, nid: u64, offset: u64, len: usize) -> (r: Result<Vec<u8>, Error>)
        requires
            old(self).wf(),
        ensures
            final(self).wf(),
            final(self).source == old(self).source,
            told(
                old(self).source.reader.faulty(),
                r,
                match inode_of(old(self).source.sb, old(self).source.reader.disk(), nid) {
                    Err(e) => Err(e),
                    Ok(fi) => filled(
                        old(self).source.sb,
                        old(self).source.reader.disk(),
                        fi,
                        offset as int,
                        len as int,
                    ),
                },
            ),
            r matches Ok(v) ==> v@.len() == len,
    {
        let ghost sb = self.source.sb;
        let ghost d = self.source.reader.disk();
        let fi = inode::read(&self.source.sb, &self.source.reader, nid)?;
        let ghost whole = filled(sb, d, fi, offset as int, len as int);
        let mut out: Vec<u8> = Vec::new();
        proof {
            if let Ok(rest) = whole {
                assert(out@ + rest =~= rest);
            }
        }
        while out.len() < len
            invariant
                self.wf(),
                self.source == old(self).source,
                sb == self.source.sb,
                d == self.source.reader.disk(),
                fi.cluster_bits < 8,
                out@.len() <= len,
                out@.len() > 0 ==> offset + out@.len() <= fi.size,
                inode_of(sb, d, nid) == Ok::<Inode, Fault>(fi),
                whole == filled(sb, d, fi, offset as int, len as int),
                whole == (match filled(sb, d, fi, offset + out@.len(), len - out@.len()) {
                    Err(e) => Err(e),
                    Ok(rest) => Ok(out@ + rest),
                }),
            decreases len - out@.len(),
        {
            let at = offset + out.len() as u64;
            let x = read_range(&self.source.sb, &self.source.reader, &fi, at, len - out.len())?;
            proof {
                range_stays_inside(sb, d, fi, at as int, len - out@.len());
            }
            let ghost before = out@;
            if x.len() == 0 {
                pad_to(&mut out, len);
                assert(out@ =~= before + zeros(len - before.len()));
                return Ok(out);
            }
            push_bytes(&mut out, &x);
            proof {
                match filled(sb, d, fi, offset + out@.len(), len - out@.len()) {
                    Ok(rest) => {
                        assert(before + (x@ + rest) =~= out@ + rest);
                    },
                    Err(_) => {},
                }
            }
        }
        proof {
            assert(out@ + Seq::<u8>::empty() =~= out@);
        }
        Ok(out)
    }
}

proof fn empty_range(sb: erofs::Superblock, d: Seq<u8>, segs: Seq<Segment>, offset: int, done: int)
    ensures
        ranged(sb, d, segs, offset, zeros(0), done) == Ok::<(Seq<u8>, int), Fault>(
            (zeros(0), done),
        ),
    decreases segs.len(),
{
    if segs.len() > 0 {
        empty_range(sb, d, segs.drop_first(), offset, done);
    }
}

/// A range that is read is no longer than asked for, and lies in the file.
pub proof fn range_stays_inside(sb: erofs::Superblock, d: Seq<u8>, fi: Inode, offset: int, len: int)
    requires
        0 <= offset,
        0 < len,
    ensures
        range_of(sb, d, fi, offset, len) matches Ok(x) ==> x.len() <= len && offset + x.len()
            <= fi.size,
{
    reveal(range_of);
    let n = least(fi.size - offset, len);
    if offset <= fi.size && n > 0 && fi.layout == inode::LAYOUT_COMPRESSED_COMPACT {
        match index_of(sb, d, fi) {
            Ok(entries) => match segments_from(entries, fi, cluster_size(sb, fi), 0, None) {
                Ok(segs) => {
                    ranged_reach(sb, d, segs, offset, zeros(n), 0);
                },
                Err(_) => {},
            },
            Err(_) => {},
        }
    }
}

proof fn ranged_reach(
    sb: erofs::Superblock,
    d: Seq<u8>,
    segs: Seq<Segment>,
    offset: int,
    out: Seq<u8>,
    done: int,
)
    requires
        0 <= done <= out.len(),
    ensures
        ranged(sb, d, segs, offset, out, done) matches Ok((x, n)) ==> x.len() == out.len() && 0
            <= n <= out.len(),
    decreases segs.len(),
{
    if segs.len() > 0 {
        let s = segs[0];
        let from = greatest(offset, s.start as int);
        let to = least(offset + out.len(), s.end as int);
        if from >= to {
            ranged_reach(sb, d, segs.drop_first(), offset, out, done);
        } else {
            match segment_part(sb, d, s, from, to) {
                Ok(x) => {
                    let next = splice(out, from - offset, x);
                    let reach = greatest(done, to - offset);
                    ranged_reach(sb, d, segs.drop_first(), offset, next, reach);
                },
                Err(_) => {},
            }
        }
    }
}

impl<'a, S: ByteSource> BlockSource for ErofsBlockSource<'a, S> {
    open spec fn volume(&self) -> Volume {
        Volume::Erofs { sb: self.origin().sb, d: self.origin().reader.disk() }
    }

    open spec fn unreliable(&self) -> bool {
        self.origin().reader.faulty()
    }

    open spec fn wf(&self) -> bool {
        self.origin().wf() && self.kept()
    }

    fn read_node_block(&mut self, node: &Node, offset: u64, len: usize) -> (r: Result<
        Vec<u8>,
        Error,
    >) {
        if let NodePayload::Memory(data) = &node.payload {
            return Ok(slice_serve(data, offset, len));
        }
        if node.layout == 0 {
            let bs = self.source.sb.block_size;
            assert(node.raw_block * bs <= 0xffff_ffff * 65536) by (nonlinear_arith)
                requires
                    node.raw_block <= 0xffff_ffff,
                    bs <= 65536,
            ;
            let base = node.raw_block as u64 * bs;
            return match base.checked_add(offset) {
                None => Err(Error::invalid("EROFS block offset overflow")),
                Some(at) => self.source.reader.read_at(at, len),
            };
        }
        if node.layout == 2 {
            return self.read_filled(node.original_nid, offset, len);
        }
        if node.layout == 3 {
            return self.read_compressed(node.original_nid, offset, len);
        }
        Err(
            Error::Invalid(
                with_number("unsupported EROFS data layout ", node.layout as u64, ""),
            ),
        )
    }
}

proof fn filled_length(sb: erofs::Superblock, d: Seq<u8>, fi: Inode, offset: int, n: int)
    requires
        0 <= offset,
        0 <= n,
    ensures
        filled(sb, d, fi, offset, n) matches Ok(x) ==> x.len() == n,
    decreases n,
{
    if n > 0 {
        range_stays_inside(sb, d, fi, offset, n);
        match range_of(sb, d, fi, offset, n) {
            Ok(x) => {
                if x.len() > 0 {
                    filled_length(sb, d, fi, offset + x.len(), n - x.len());
                }
            },
            Err(_) => {},
        }
    }
}

/// The range that is found holds the block.
pub proof fn extent_is_there(s: Seq<(u64, u64, u64)>, block: int, i: int)
    requires
        0 <= i,
    ensures
        extent_with(s, block, i) matches Some(k) ==> i <= k < s.len() && s[k].0 <= block < s[k].0
            + s[k].2,
    decreases s.len() - i,
{
    if i < s.len() {
        extent_is_there(s, block, i + 1);
    }
}

proof fn ext4_range_length(
    sb: ext4::Superblock,
    d: Seq<u8>,
    extents: Seq<(u64, u64, u64)>,
    offset: int,
    len: int,
)
    requires
        0 <= offset,
        0 <= len,
        sb.block_size > 0,
    ensures
        ext4_range(sb, d, extents, offset, len) matches Ok(x) ==> x.len() == len,
    decreases len,
{
    let bs = sb.block_size as int;
    let n = least(bs - offset % bs, len);
    if len > 0 && offset + len <= u64::MAX {
        vstd::arithmetic::div_mod::lemma_fundamental_div_mod(offset, bs);
        extent_is_there(extents, offset / bs, 0);
        match extent_with(extents, offset / bs, 0) {
            Some(i) => {
                let at = (extents[i].1 + (offset / bs - extents[i].0)) * bs + offset % bs;
                assert(at >= 0) by (nonlinear_arith)
                    requires
                        at == (extents[i].1 + (offset / bs - extents[i].0)) * bs + offset % bs,
                        extents[i].0 <= offset / bs,
                        bs > 0,
                        offset % bs >= 0,
                ;
            },
            None => {},
        }
        ext4_range_length(sb, d, extents, offset + n, len - n);
    }
}

/// A range of the content of a node has the length that was asked for.
pub proof fn ranges_have_their_length(v: Volume, n: NodeView, offset: int, len: int)
    requires
        0 <= offset,
        0 <= len,
        v matches Volume::Ext4 { sb, .. } ==> sb.block_size > 0,
    ensures
        served(v, n, offset, len) matches Ok(x) ==> x.len() == len,
{
    match v {
        Volume::Erofs { sb, d } => {
            if n.layout == 0 {
                assert(n.raw_block * sb.block_size >= 0) by (nonlinear_arith)
                    requires
                        n.raw_block >= 0,
                        sb.block_size >= 0,
                ;
            } else if n.layout == 2 {
                match inode_of(sb, d, n.original_nid) {
                    Ok(fi) => {
                        filled_length(sb, d, fi, offset, len);
                    },
                    Err(_) => {},
                }
            } else if n.layout == 3 {
                match file_segments(sb, d, n.original_nid) {
                    Ok(segs) => {
                        ranged_reach(sb, d, segs, offset, zeros(len), 0);
                    },
                    Err(_) => {},
                }
            }
        },
        Volume::Ext4 { sb, d } => {
            ext4_range_length(sb, d, n.extents, offset, len);
        },
    }
}

} // verus!
