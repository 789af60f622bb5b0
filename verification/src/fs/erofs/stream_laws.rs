//! Reading a file in parts, or as a stream, gives what reading it whole gives.
use super::codec::{decoded, without_padding};
use super::compress::{
    cluster_size, entry_start, filled_from, index_of, segment_at, segment_data, segments_from,
    CompactEntry, Segment, CLUSTER_TYPE_PLAIN,
};
use super::inode::{
    compact_range, data_of, inline_data, inline_range, quanta_from, range_of, ranged, segment_part,
    segment_stream, segments_stream, streamed, Inode, LAYOUT_COMPRESSED_COMPACT, LAYOUT_INLINE, LAYOUT_PLAIN,
};
use super::lz4::lz4_gives_the_size;
use super::Superblock;
use crate::buf::{splice, zeros};
use crate::error::Fault;
use crate::math::{greatest, least};
use crate::stream::{pieces_are_the_range, STREAM_CHUNK};
use vstd::prelude::*;

verus! {

// ---------------------------------------------------------------------
// Plain and inline files
// ---------------------------------------------------------------------
proof fn whole_blocks_are_inside(size: int, block: int)
    requires
        0 <= size,
        0 < block,
    ensures
        0 <= size / block * block <= size,
{
    vstd::arithmetic::div_mod::lemma_fundamental_div_mod(size, block);
    assert(size / block * block == block * (size / block)) by (nonlinear_arith);
    vstd::arithmetic::div_mod::lemma_div_pos_is_pos(size, block);
    assert(0 <= size / block * block) by (nonlinear_arith)
        requires
            0 <= size / block,
            0 < block,
    ;
}

proof fn inline_ranges_are_parts(
    fs: Superblock,
    d: Seq<u8>,
    inode: Inode,
    data: Seq<u8>,
    offset: int,
    n: int,
)
    requires
        0 < fs.block_size,
        inline_data(fs, d, inode) == Ok::<Seq<u8>, Fault>(data),
        0 <= offset,
        0 < n,
        offset + n <= inode.size,
    ensures
        data.len() == inode.size,
        inline_range(fs, d, inode, offset, n) == Ok::<Seq<u8>, Fault>(
            data.subrange(offset, offset + n),
        ),
{
    let size = inode.size as int;
    let bs = fs.block_size as int;
    let full = size / bs * bs;
    whole_blocks_are_inside(size, bs);
    let base = inode.raw_blkaddr * bs;
    assert(0 <= base) by (nonlinear_arith)
        requires
            base == inode.raw_blkaddr * bs,
            0 < bs,
    ;
    let tail_at = inode.data_offset as int;
    if inode.raw_blkaddr == 0 {
        assert(data == d.subrange(tail_at, tail_at + size));
        assert(d.subrange(tail_at + offset, tail_at + offset + n) =~= data.subrange(
            offset,
            offset + n,
        ));
        assert(Seq::<u8>::empty() + data.subrange(offset, offset + n) =~= data.subrange(
            offset,
            offset + n,
        ));
    } else {
        let head = if full > 0 {
            d.subrange(base, base + full)
        } else {
            Seq::empty()
        };
        let tail = if full < size {
            d.subrange(tail_at, tail_at + (size - full))
        } else {
            Seq::empty()
        };
        assert(data == head + tail);
        let first = if offset < full {
            least(full - offset, n)
        } else {
            0
        };
        let a = if first > 0 {
            d.subrange(base + offset, base + offset + first)
        } else {
            Seq::empty()
        };
        if first > 0 {
            assert(a =~= head.subrange(offset, offset + first));
        }
        if first >= n {
            assert(a =~= data.subrange(offset, offset + n));
        } else {
            let from = offset + first - full;
            let b = d.subrange(tail_at + from, tail_at + from + (n - first));
            assert(b =~= tail.subrange(from, from + (n - first)));
            assert(a + b =~= data.subrange(offset, offset + n));
        }
    }
}

/// Reading a part of a file that is stored as it is gives that part of what
/// reading the file whole gives.
proof fn plain_ranges_are_parts(
    fs: Superblock,
    d: Seq<u8>,
    inode: Inode,
    data: Seq<u8>,
    offset: int,
    len: int,
)
    requires
        0 < fs.block_size,
        inode.layout == LAYOUT_PLAIN || inode.layout == LAYOUT_INLINE,
        data_of(fs, d, inode) == Ok::<Seq<u8>, Fault>(data),
        0 <= offset <= inode.size,
        0 <= len,
    ensures
        data.len() == inode.size,
        range_of(fs, d, inode, offset, len) == Ok::<Seq<u8>, Fault>(
            data.subrange(offset, offset + least(inode.size - offset, len)),
        ),
{
    reveal(range_of);
    let n = least(inode.size - offset, len);
    let base = inode.raw_blkaddr * fs.block_size;
    assert(0 <= base) by (nonlinear_arith)
        requires
            base == inode.raw_blkaddr * fs.block_size,
            0 < fs.block_size,
    ;
    if inode.size > 0 {
        if inode.layout == LAYOUT_PLAIN {
            if n > 0 {
                assert(d.subrange(base + offset, base + offset + n) =~= data.subrange(
                    offset,
                    offset + n,
                ));
            }
        } else if n > 0 {
            inline_ranges_are_parts(fs, d, inode, data, offset, n);
        } else {
            inline_ranges_are_parts(fs, d, inode, data, 0, inode.size as int);
        }
    }
    if n == 0 {
        assert(data.subrange(offset, offset + n) =~= Seq::empty());
    }
}

proof fn quanta_are_the_rest(
    fs: Superblock,
    d: Seq<u8>,
    inode: Inode,
    data: Seq<u8>,
    offset: int,
)
    requires
        0 < fs.block_size,
        inode.layout == LAYOUT_PLAIN || inode.layout == LAYOUT_INLINE,
        data_of(fs, d, inode) == Ok::<Seq<u8>, Fault>(data),
        0 <= offset <= inode.size,
    ensures
        data.len() == inode.size,
        quanta_from(fs, d, inode, offset) == Ok::<Seq<u8>, Fault>(
            data.subrange(offset, inode.size as int),
        ),
    decreases inode.size - offset,
{
    plain_ranges_are_parts(fs, d, inode, data, offset, STREAM_CHUNK as int);
    let end = inode.size as int;
    if offset < end {
        let n = least(end - offset, STREAM_CHUNK as int);
        let x = data.subrange(offset, offset + n);
        quanta_are_the_rest(fs, d, inode, data, offset + n);
        assert(x + data.subrange(offset + n, end) =~= data.subrange(offset, end));
    } else {
        assert(data.subrange(offset, end) =~= Seq::empty());
    }
}

// ---------------------------------------------------------------------
// Compressed files
// ---------------------------------------------------------------------
/// The segments follow each other, from `from` on up to the end.
pub open spec fn follow(segs: Seq<Segment>, from: int, end: int) -> bool
    decreases segs.len(),
{
    if segs.len() == 0 {
        from == end
    } else {
        segs[0].start == from && segs[0].end <= end && follow(
            segs.drop_first(),
            segs[0].end as int,
            end,
        )
    }
}

/// The segments of a file.
pub open spec fn segments_of(fs: Superblock, d: Seq<u8>, inode: Inode) -> Result<
    Seq<Segment>,
    Fault,
> {
    match index_of(fs, d, inode) {
        Err(e) => Err(e),
        Ok(entries) => segments_from(entries, inode, cluster_size(fs, inode), 0, None),
    }
}

proof fn segments_stream_as_they_read(fs: Superblock, d: Seq<u8>, s: Segment, x: Seq<u8>)
    requires
        d.len() <= u64::MAX,
        s.start <= s.end,
        segment_data(fs, d, s) == Ok::<Seq<u8>, Fault>(x),
    ensures
        segment_stream(fs, d, s) == Ok::<Seq<u8>, Fault>(x),
{
    if s.kind == CLUSTER_TYPE_PLAIN {
        let at = s.physical * fs.block_size;
        assert(0 <= at) by (nonlinear_arith)
            requires
                at == s.physical * fs.block_size,
        ;
        pieces_are_the_range(d, at, s.end - s.start);
        if s.end == s.start {
            assert(x =~= Seq::empty());
        }
    }
}

/// A segment lies inside the file.
proof fn segments_lie_inside(
    entries: Seq<CompactEntry>,
    inode: Inode,
    lbs: int,
    i: int,
    cursor: Option<u64>,
)
    requires
        0 <= lbs,
        segment_at(entries, inode, lbs, i, cursor) matches Ok((Some(s), _)),
    ensures
        segment_at(entries, inode, lbs, i, cursor) matches Ok((Some(s), _)) ==> s.start <= s.end
            <= inode.size,
{
    let entry = entries[i];
    assert(0 <= entry_start(entry, lbs)) by {
        assert(0 <= entry.lcn * lbs) by (nonlinear_arith)
            requires
                0 <= lbs,
        ;
    }
}

/// Putting a segment in its place makes the part that is there longer.
proof fn filling_goes_on(out: Seq<u8>, from: int, x: Seq<u8>, y: Seq<u8>)
    requires
        0 <= from,
        from + x.len() <= out.len(),
    ensures
        splice(out, from, x).len() == out.len(),
        splice(out, from, x).take(from + x.len()) + y == out.take(from) + (x + y),
{
    let more = splice(out, from, x);
    assert(more.take(from + x.len()) =~= out.take(from) + x);
    assert(out.take(from) + x + y =~= out.take(from) + (x + y));
}

proof fn filling_is_streaming(
    fs: Superblock,
    d: Seq<u8>,
    entries: Seq<CompactEntry>,
    inode: Inode,
    lbs: int,
    i: int,
    cursor: Option<u64>,
    from: int,
    out: Seq<u8>,
    segs: Seq<Segment>,
    data: Seq<u8>,
)
    requires
        d.len() <= u64::MAX,
        0 <= lbs,
        0 <= i,
        filled_from(fs, d, entries, inode, lbs, i, cursor, out) == Ok::<Seq<u8>, Fault>(data),
        segments_from(entries, inode, lbs, i, cursor) == Ok::<Seq<Segment>, Fault>(segs),
        0 <= from <= out.len() == inode.size,
        follow(segs, from, inode.size as int),
    ensures
        segments_stream(fs, d, segs) matches Ok(x) && data == out.take(from) + x,
    decreases entries.len() - i,
{
    if i >= entries.len() {
        assert(out.take(from) + Seq::<u8>::empty() =~= out);
    } else {
        let (segment, next) = segment_at(entries, inode, lbs, i, cursor)->Ok_0;
        let rest = segments_from(entries, inode, lbs, i + 1, next)->Ok_0;
        match segment {
            None => {
                filling_is_streaming(
                    fs,
                    d,
                    entries,
                    inode,
                    lbs,
                    i + 1,
                    next,
                    from,
                    out,
                    segs,
                    data,
                );
            },
            Some(s) => {
                let x = segment_data(fs, d, s)->Ok_0;
                segments_lie_inside(entries, inode, lbs, i, cursor);
                segments_have_their_length(fs, d, s, x);
                segments_stream_as_they_read(fs, d, s, x);
                let more = splice(out, s.start as int, x);
                if s.end > s.start {
                    assert(segs.drop_first() =~= rest);
                    assert(segs[0] == s);
                    filling_is_streaming(
                        fs,
                        d,
                        entries,
                        inode,
                        lbs,
                        i + 1,
                        next,
                        s.end as int,
                        more,
                        rest,
                        data,
                    );
                    filling_goes_on(out, from, x, segments_stream(fs, d, rest)->Ok_0);
                } else {
                    assert(more =~= out);
                    filling_is_streaming(
                        fs,
                        d,
                        entries,
                        inode,
                        lbs,
                        i + 1,
                        next,
                        from,
                        out,
                        rest,
                        data,
                    );
                }
            },
        }
    }
}

proof fn segments_have_their_length(fs: Superblock, d: Seq<u8>, s: Segment, x: Seq<u8>)
    requires
        s.start <= s.end,
        segment_data(fs, d, s) == Ok::<Seq<u8>, Fault>(x),
    ensures
        x.len() == s.end - s.start,
{
    if s.kind == CLUSTER_TYPE_PLAIN {
        assert(0 <= s.physical * fs.block_size) by (nonlinear_arith);
    } else {
        let size = fs.block_size * s.compressed_blocks;
        let y = d.subrange(s.physical * fs.block_size, s.physical * fs.block_size + size);
        let padded = fs.feature_incompat % 2 == 1;
        let z = if padded {
            without_padding(y)->Some_0
        } else {
            y
        };
        assert(decoded(z, s.end - s.start, s.algorithm) == Ok::<Seq<u8>, Fault>(x));
        lz4_gives_the_size(z, 0, Seq::empty(), s.end - s.start);
    }
}

// ---------------------------------------------------------------------
// Ranges of compressed files
// ---------------------------------------------------------------------
/// The segments hold the content `c` from `from` on, one behind the other.
pub open spec fn tiled(fs: Superblock, d: Seq<u8>, segs: Seq<Segment>, from: int, c: Seq<u8>) -> bool
    decreases segs.len(),
{
    if segs.len() == 0 {
        c.len() <= from
    } else {
        let s = segs[0];
        &&& s.start == from
        &&& from < s.end <= c.len()
        &&& segment_data(fs, d, s) == Ok::<Seq<u8>, Fault>(c.subrange(from, s.end as int))
        &&& s.kind == CLUSTER_TYPE_PLAIN ==> s.physical * fs.block_size + (s.end - s.start) <= u64::MAX
        &&& tiled(fs, d, segs.drop_first(), s.end as int, c)
    }
}

/// A part of a segment is that part of the content.
pub proof fn part_of_segment(
    fs: Superblock,
    d: Seq<u8>,
    s: Segment,
    c: Seq<u8>,
    from: int,
    to: int,
)
    requires
        s.start <= from < to <= s.end <= c.len(),
        segment_data(fs, d, s) == Ok::<Seq<u8>, Fault>(c.subrange(s.start as int, s.end as int)),
        s.kind == CLUSTER_TYPE_PLAIN ==> s.physical * fs.block_size + (s.end - s.start) <= u64::MAX,
        0 <= s.physical * fs.block_size,
    ensures
        segment_part(fs, d, s, from, to) == Ok::<Seq<u8>, Fault>(c.subrange(from, to)),
{
    reveal(segment_part);
    let base = s.physical * fs.block_size;
    let whole = c.subrange(s.start as int, s.end as int);
    assert(whole.subrange(from - s.start, to - s.start) =~= c.subrange(from, to));
    if s.kind == CLUSTER_TYPE_PLAIN {
        let at = base + (from - s.start);
        assert(d.subrange(at, at + (to - from)) =~= d.subrange(
            base,
            base + (s.end - s.start),
        ).subrange(from - s.start, to - s.start));
    }
}

/// The first `done` bytes of a range, and zeros for the rest.
pub open spec fn begun(c: Seq<u8>, offset: int, len: int, done: int) -> Seq<u8> {
    c.subrange(offset, offset + done) + zeros(len - done)
}

proof fn range_goes_on(c: Seq<u8>, offset: int, len: int, done: int, from: int, to: int)
    requires
        0 <= offset,
        0 <= done <= len,
        offset + len <= c.len(),
        from == offset + done,
        from <= to <= offset + len,
    ensures
        begun(c, offset, len, done).len() == len,
        splice(begun(c, offset, len, done), from - offset, c.subrange(from, to)) == begun(
            c,
            offset,
            len,
            to - offset,
        ),
{
    assert(splice(begun(c, offset, len, done), from - offset, c.subrange(from, to)) =~= begun(
        c,
        offset,
        len,
        to - offset,
    ));
}

/// Reading a range of tiled content gives that range.
pub proof fn tiles_give_ranges(
    fs: Superblock,
    d: Seq<u8>,
    segs: Seq<Segment>,
    from: int,
    c: Seq<u8>,
    offset: int,
    len: int,
)
    requires
        tiled(fs, d, segs, from, c),
        0 <= from,
        0 <= offset,
        0 < len,
        offset + len <= c.len(),
        from - offset < len,
    ensures
        ranged(
            fs,
            d,
            segs,
            offset,
            begun(c, offset, len, greatest(from - offset, 0)),
            greatest(from - offset, 0),
        ) == Ok::<(Seq<u8>, int), Fault>((c.subrange(offset, offset + len), len)),
    decreases segs.len(),
{
    let done = greatest(from - offset, 0);
    let out = begun(c, offset, len, done);
    if segs.len() > 0 {
        let s = segs[0];
        let a = greatest(offset, s.start as int);
        let b = least(offset + out.len(), s.end as int);
        range_goes_on(c, offset, len, done, offset + done, offset + done);
        if a >= b {
            assert(s.end <= offset);
            tiles_give_ranges(fs, d, segs.drop_first(), s.end as int, c, offset, len);
        } else {
            assert(0 <= s.physical * fs.block_size) by (nonlinear_arith);
            part_of_segment(fs, d, s, c, a, b);
            range_goes_on(c, offset, len, done, a, b);
            if b - offset >= len {
                assert(begun(c, offset, len, len) =~= c.subrange(offset, offset + len));
            } else {
                tiles_give_ranges(fs, d, segs.drop_first(), s.end as int, c, offset, len);
            }
        }
    }
}

/// A file whose segments follow each other is tiled by them.
proof fn filling_tiles(
    fs: Superblock,
    d: Seq<u8>,
    entries: Seq<CompactEntry>,
    inode: Inode,
    lbs: int,
    i: int,
    cursor: Option<u64>,
    from: int,
    out: Seq<u8>,
    segs: Seq<Segment>,
    data: Seq<u8>,
)
    requires
        d.len() <= u64::MAX,
        0 <= lbs,
        0 <= i,
        filled_from(fs, d, entries, inode, lbs, i, cursor, out) == Ok::<Seq<u8>, Fault>(data),
        segments_from(entries, inode, lbs, i, cursor) == Ok::<Seq<Segment>, Fault>(segs),
        0 <= from <= out.len() == inode.size,
        follow(segs, from, inode.size as int),
    ensures
        data.len() == inode.size,
        data.take(from) == out.take(from),
        tiled(fs, d, segs, from, data),
    decreases entries.len() - i,
{
    if i < entries.len() {
        let (segment, next) = segment_at(entries, inode, lbs, i, cursor)->Ok_0;
        let rest = segments_from(entries, inode, lbs, i + 1, next)->Ok_0;
        match segment {
            None => {
                filling_tiles(fs, d, entries, inode, lbs, i + 1, next, from, out, segs, data);
            },
            Some(s) => {
                let x = segment_data(fs, d, s)->Ok_0;
                segments_lie_inside(entries, inode, lbs, i, cursor);
                segments_have_their_length(fs, d, s, x);
                let more = splice(out, s.start as int, x);
                if s.end > s.start {
                    assert(segs.drop_first() =~= rest);
                    assert(segs[0] == s);
                    let end = s.end as int;
                    filling_tiles(fs, d, entries, inode, lbs, i + 1, next, end, more, rest, data);
                    assert(data.take(end) == more.take(end));
                    assert(data.subrange(from, end) =~= data.take(end).subrange(from, end));
                    assert(more.take(end).subrange(from, end) =~= x);
                    assert(data.take(from) =~= data.take(end).take(from));
                    assert(more.take(end).take(from) =~= out.take(from));
                    if s.kind == CLUSTER_TYPE_PLAIN {
                        assert(0 <= s.physical * fs.block_size) by (nonlinear_arith);
                    }
                } else {
                    assert(more =~= out);
                    filling_tiles(fs, d, entries, inode, lbs, i + 1, next, from, out, rest, data);
                }
            },
        }
    }
}

/// The segments of a compressed file tile its content, where they follow each
/// other.
pub proof fn contents_are_tiled(
    fs: Superblock,
    d: Seq<u8>,
    inode: Inode,
    segs: Seq<Segment>,
    data: Seq<u8>,
)
    requires
        d.len() <= u64::MAX,
        inode.layout == LAYOUT_COMPRESSED_COMPACT,
        inode.size > 0,
        data_of(fs, d, inode) == Ok::<Seq<u8>, Fault>(data),
        segments_of(fs, d, inode) == Ok::<Seq<Segment>, Fault>(segs),
        follow(segs, 0, inode.size as int),
    ensures
        data.len() == inode.size,
        tiled(fs, d, segs, 0, data),
{
    let entries = index_of(fs, d, inode)->Ok_0;
    filling_tiles(
        fs,
        d,
        entries,
        inode,
        cluster_size(fs, inode),
        0,
        None,
        0,
        zeros(inode.size as int),
        segs,
        data,
    );
}

proof fn compressed_ranges_are_parts(
    fs: Superblock,
    d: Seq<u8>,
    inode: Inode,
    data: Seq<u8>,
    offset: int,
    n: int,
)
    requires
        d.len() <= u64::MAX,
        inode.layout == LAYOUT_COMPRESSED_COMPACT,
        data_of(fs, d, inode) == Ok::<Seq<u8>, Fault>(data),
        segments_of(fs, d, inode) matches Ok(segs) && follow(segs, 0, inode.size as int),
        0 <= offset,
        0 < n,
        offset + n <= inode.size,
    ensures
        data.len() == inode.size,
        compact_range(fs, d, inode, offset, n) == Ok::<Seq<u8>, Fault>(
            data.subrange(offset, offset + n),
        ),
{
    let segs = segments_of(fs, d, inode)->Ok_0;
    contents_are_tiled(fs, d, inode, segs, data);
    tiles_give_ranges(fs, d, segs, 0, data, offset, n);
    assert(begun(data, offset, n, 0) =~= zeros(n));
    let x = data.subrange(offset, offset + n);
    assert(x.take(n) =~= x);
}

/// Reading a part of a file gives that part of what reading the file whole
/// gives, where the segments of a compressed one follow each other.
pub proof fn ranges_are_parts(
    fs: Superblock,
    d: Seq<u8>,
    inode: Inode,
    data: Seq<u8>,
    offset: int,
    len: int,
)
    requires
        0 < fs.block_size,
        d.len() <= u64::MAX,
        data_of(fs, d, inode) == Ok::<Seq<u8>, Fault>(data),
        inode.layout == LAYOUT_COMPRESSED_COMPACT && inode.size > 0 ==> (segments_of(
            fs,
            d,
            inode,
        ) matches Ok(segs) && follow(segs, 0, inode.size as int)),
        0 <= offset <= inode.size,
        0 <= len,
    ensures
        data.len() == inode.size,
        range_of(fs, d, inode, offset, len) == Ok::<Seq<u8>, Fault>(
            data.subrange(offset, offset + least(inode.size - offset, len)),
        ),
{
    if inode.layout == LAYOUT_COMPRESSED_COMPACT && inode.size > 0 {
        reveal(range_of);
        let n = least(inode.size - offset, len);
        if n > 0 {
            compressed_ranges_are_parts(fs, d, inode, data, offset, n);
        } else {
            contents_are_tiled(fs, d, inode, segments_of(fs, d, inode)->Ok_0, data);
            assert(data.subrange(offset, offset + n) =~= Seq::empty());
        }
    } else if inode.size == 0 {
        reveal(range_of);
        assert(data.subrange(0, 0) =~= Seq::empty());
    } else {
        plain_ranges_are_parts(fs, d, inode, data, offset, len);
    }
}

// ---------------------------------------------------------------------
// The law
// ---------------------------------------------------------------------
/// Streaming a file and reading it whole give the same bytes, where the
/// segments of a compressed one follow each other.
pub proof fn streaming_agrees_with_reading(
    fs: Superblock,
    d: Seq<u8>,
    inode: Inode,
    data: Seq<u8>,
)
    requires
        0 < fs.block_size,
        d.len() <= u64::MAX,
        data_of(fs, d, inode) == Ok::<Seq<u8>, Fault>(data),
        inode.size > 0,
        inode.layout == LAYOUT_COMPRESSED_COMPACT ==> (segments_of(fs, d, inode) matches Ok(segs)
            && follow(segs, 0, inode.size as int)),
    ensures
        streamed(fs, d, inode) == Ok::<Seq<u8>, Fault>(data),
{
    if inode.layout == LAYOUT_COMPRESSED_COMPACT {
        let entries = index_of(fs, d, inode)->Ok_0;
        let segs = segments_of(fs, d, inode)->Ok_0;
        let blank = zeros(inode.size as int);
        filling_is_streaming(
            fs,
            d,
            entries,
            inode,
            cluster_size(fs, inode),
            0,
            None,
            0,
            blank,
            segs,
            data,
        );
        let x = segments_stream(fs, d, segs)->Ok_0;
        assert(blank.take(0) + x =~= x);
    } else {
        quanta_are_the_rest(fs, d, inode, data, 0);
        assert(data.subrange(0, inode.size as int) =~= data);
    }
}

} // verus!
