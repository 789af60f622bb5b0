//! Reading a compressed file in ranges gives what reading it whole gives.
use super::packed::entries_count;
use super::unpack_laws::{
    entries_match, entries_match_rest, first_segment_data, head_segment, joined_splits,
    plain_segment, rows, span_length, standing, standing_lengths, standing_rest,
};
use crate::error::Fault;
use crate::fs::erofs::codec::Algo;
use crate::fs::erofs::compress::{
    segment_at, segment_data, segments_from, CompactEntry, Segment, CLUSTER_TYPE_NONHEAD,
};
use crate::fs::erofs::encode::{joined, restores, PclusterView};
use crate::fs::erofs::inode::Inode;
use crate::fs::erofs::stream_laws::tiled;
use crate::fs::erofs::Superblock;
use crate::math::least;
use vstd::prelude::*;

verus! {

proof fn filler_has_no_segment(
    entries: Seq<CompactEntry>,
    inode: Inode,
    bs: int,
    i: int,
    cursor: Option<u64>,
)
    requires
        0 <= i < entries.len(),
        0 <= bs,
        entries[i].kind == CLUSTER_TYPE_NONHEAD,
        entries[i].lcn == i,
        entries[i].value == 1,
        i * bs <= u32::MAX,
    ensures
        segments_from(entries, inode, bs, i, cursor) == segments_from(
            entries,
            inode,
            bs,
            i + 1,
            cursor,
        ),
{
}

/// The first segment of a file, and those behind it.
proof fn first_cluster_is_a_segment(
    fs: Superblock,
    d: Seq<u8>,
    algo: Algo,
    entries: Seq<CompactEntry>,
    inode: Inode,
    p: Seq<PclusterView>,
    c: Seq<Seq<u8>>,
    first: int,
    i: int,
    cursor: Option<u64>,
) -> (s: Segment)
    requires
        512 <= fs.block_size <= 16384,
        fs.feature_incompat % 2 == 0,
        inode.size <= u32::MAX,
        inode.algorithm_type == algo.id(),
        standing(fs, d, algo, p, c, first, inode.size as int, i),
        entries_match(entries, p, i),
        0 <= i,
        p.len() > 0,
        match cursor {
            Some(x) => x == first,
            None => entries[i].pblk == first,
        },
        (i + c.len() - 1) * fs.block_size < inode.size <= (i + c.len()) * fs.block_size,
        segments_from(
            entries,
            inode,
            fs.block_size as int,
            i + p[0].n,
            Some((first + 1) as u64),
        ) is Ok,
    ensures
        segments_from(entries, inode, fs.block_size as int, i, cursor) == Ok::<Seq<Segment>, Fault>(
            seq![s] + segments_from(
                entries,
                inode,
                fs.block_size as int,
                i + p[0].n,
                Some((first + 1) as u64),
            )->Ok_0,
        ),
        s.start == i * fs.block_size,
        s.end == least((i + p[0].n) * fs.block_size, inode.size as int),
        s.start < s.end,
        s.physical == first,
        segment_data(fs, d, s) == Ok::<Seq<u8>, Fault>(joined(c.take(p[0].n as int))),
{
    let bs = fs.block_size as int;
    let size = inode.size as int;
    standing_lengths(fs, d, algo, p, c, first, size, i);
    let n = p[0].n as int;
    let rest = p.drop_first();
    let more = c.skip(n);
    entries_match_rest(entries, algo, p, c, i);
    span_length(c, n, bs, size, i);
    rows(i, n, c.len() as int, bs, size);
    if more.len() > 0 {
        assert(rest.len() > 0) by {
            reveal_with_fuel(restores, 2);
        }
        entries_match_rest(entries, algo, rest, more, i + n);
    }
    if p[0].head {
        head_segment(entries, inode, bs, i, n, cursor, first);
    } else {
        plain_segment(entries, inode, bs, i, cursor, first);
    }
    let s = segment_at(entries, inode, bs, i, cursor)->Ok_0.0->Some_0;
    first_segment_data(fs, d, algo, p, c, first, size, i, s);
    if n == 2 {
        filler_has_no_segment(entries, inode, bs, i + 1, Some((first + 1) as u64));
    }
    s
}

proof fn tile_is_there(full: Seq<u8>, c: Seq<Seq<u8>>, n: int, at: int, end: int, next: int)
    requires
        0 <= n <= c.len(),
        0 <= at <= end <= full.len(),
        end == least(next, full.len() as int),
        full.skip(at) == joined(c),
        joined(c.take(n)).len() == end - at,
        next <= full.len() || n == c.len(),
        at <= next,
    ensures
        full.subrange(at, end) == joined(c.take(n)),
        n < c.len() ==> full.skip(next) == joined(c.skip(n)),
{
    joined_splits(c.take(n), c.skip(n));
    assert(c =~= c.take(n) + c.skip(n));
    assert(full.subrange(at, end) =~= full.skip(at).take(end - at));
    assert(joined(c).take(end - at) =~= joined(c.take(n)));
    if n < c.len() {
        assert(full.skip(next) =~= full.skip(at).skip(next - at));
        assert(joined(c).skip(end - at) =~= joined(c.skip(n)));
    }
}

/// The segments of a file that stands in an image tile its content.
pub proof fn segments_tile(
    fs: Superblock,
    d: Seq<u8>,
    algo: Algo,
    entries: Seq<CompactEntry>,
    inode: Inode,
    p: Seq<PclusterView>,
    c: Seq<Seq<u8>>,
    first: int,
    i: int,
    cursor: Option<u64>,
    full: Seq<u8>,
)
    requires
        512 <= fs.block_size <= 16384,
        fs.feature_incompat % 2 == 0,
        inode.size <= u32::MAX,
        inode.algorithm_type == algo.id(),
        standing(fs, d, algo, p, c, first, inode.size as int, i),
        entries_match(entries, p, i),
        0 <= i,
        c.len() > 0 ==> match cursor {
            Some(x) => x == first,
            None => entries[i].pblk == first,
        },
        c.len() > 0 ==> (i + c.len() - 1) * fs.block_size < inode.size <= (i + c.len())
            * fs.block_size,
        c.len() == 0 ==> inode.size <= i * fs.block_size,
        full.len() == inode.size,
        c.len() > 0 ==> full.skip(i * fs.block_size) == joined(c),
    ensures
        segments_from(entries, inode, fs.block_size as int, i, cursor) matches Ok(segs) && tiled(
            fs,
            d,
            segs,
            least(i * fs.block_size, full.len() as int),
            full,
        ),
    decreases p.len(),
{
    let bs = fs.block_size as int;
    let size = inode.size as int;
    standing_lengths(fs, d, algo, p, c, first, size, i);
    if p.len() == 0 {
        assert(c.len() == 0);
        assert(entries.len() == i) by {
            reveal(entries_match);
            entries_count(algo, p, c);
        }
    } else {
        let n = p[0].n as int;
        let rest = p.drop_first();
        let more = c.skip(n);
        let next = Some((first + 1) as u64);
        standing_rest(fs, d, algo, p, c, first, size, i);
        entries_match_rest(entries, algo, p, c, i);
        span_length(c, n, bs, size, i);
        rows(i, n, c.len() as int, bs, size);
        let end = least((i + n) * bs, size);
        tile_is_there(full, c, n, i * bs, end, (i + n) * bs);
        segments_tile(fs, d, algo, entries, inode, rest, more, first + 1, i + n, next, full);
        let s = first_cluster_is_a_segment(fs, d, algo, entries, inode, p, c, first, i, cursor);
        let behind = segments_from(entries, inode, bs, i + n, next)->Ok_0;
        let segs = seq![s] + behind;
        assert(segs.drop_first() =~= behind);
        assert(s.physical * fs.block_size + s.end <= u64::MAX) by (nonlinear_arith)
            requires
                s.physical <= 0xffff_ffff,
                fs.block_size <= 16384,
                s.end <= 0xffff_ffff,
        ;
    }
}

} // verus!
