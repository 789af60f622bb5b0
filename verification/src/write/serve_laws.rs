//! What a source serves of a file, whole or in parts.
use super::blocks::{filled, served, window, Volume};
use super::node::{NodeView, PayloadView};
use super::packed::clusters_of;
use super::read_back::source_content;
use super::rebuild::{moved, QUANTUM};
use super::source::read_node;
use crate::buf::{splice, zeros};
use crate::error::Fault;
use crate::fs::erofs;
use crate::fs::erofs::compress::Segment;
use crate::fs::erofs::encode::joined;
use crate::fs::erofs::inode::{
    data_of, inode_of, range_of, ranged, Inode, LAYOUT_COMPRESSED_COMPACT, LAYOUT_INLINE,
    LAYOUT_PLAIN,
};
use crate::fs::erofs::stream_laws::{
    begun, contents_are_tiled, follow, part_of_segment, ranges_are_parts, segments_of, tiled,
    tiles_give_ranges,
};
use crate::math::{ceil_div, ceil_div_covers, greatest, least};
use vstd::prelude::*;

verus! {

/// The source serves every part of the content `c` of a node.
pub open spec fn serves(v: Volume, n: NodeView, c: Seq<u8>) -> bool {
    &&& c.len() == n.data_size
    &&& forall|offset: int, len: int|
        0 <= offset && 0 < len && offset + len <= c.len() ==> #[trigger] served(v, n, offset, len)
            == Ok::<Seq<u8>, Fault>(c.subrange(offset, offset + len))
}

/// What is moved in pieces is what is served.
pub proof fn pieces_make_the_part(v: Volume, n: NodeView, c: Seq<u8>, from: int, to: int)
    requires
        serves(v, n, c),
        0 <= from <= to <= c.len(),
    ensures
        moved(v, n, from, to) == Ok::<Seq<u8>, Fault>(c.subrange(from, to)),
    decreases to - from,
{
    if from < to {
        let take = least(QUANTUM as int, to - from);
        assert(served(v, n, from, take) == Ok::<Seq<u8>, Fault>(c.subrange(from, from + take)));
        pieces_make_the_part(v, n, c, from + take, to);
        assert(c.subrange(from, from + take) + c.subrange(from + take, to) =~= c.subrange(from, to));
    } else {
        assert(c.subrange(from, to) =~= Seq::empty());
    }
}

/// The clusters of a file are its content.
pub proof fn clusters_make_the_file(v: Volume, n: NodeView, c: Seq<u8>, block_size: int, to: int)
    requires
        serves(v, n, c),
        block_size > 0,
        0 <= to <= ceil_div(c.len() as int, block_size),
    ensures
        clusters_of(v, n, block_size, c.len() as int, 0, to) matches Ok(s) && joined(s) == c.take(
            least(to * block_size, c.len() as int),
        ),
    decreases to,
{
    let size = c.len() as int;
    ceil_div_covers(size, block_size);
    if to == 0 {
        assert(joined(Seq::<Seq<u8>>::empty()) =~= Seq::empty());
        assert(c.take(0) =~= Seq::empty());
        assert(least(0 * block_size, size) == 0);
    } else {
        clusters_make_the_file(v, n, c, block_size, to - 1);
        let lcn = to - 1;
        let at = lcn * block_size;
        let total = ceil_div(size, block_size);
        assert(0 <= at < size && to * block_size == at + block_size) by (nonlinear_arith)
            requires
                0 <= lcn <= total - 1,
                to == lcn + 1,
                at == lcn * block_size,
                total * block_size < size + block_size,
                block_size > 0,
        ;
        let len = least(block_size, size - at);
        assert(served(v, n, at, len) == Ok::<Seq<u8>, Fault>(c.subrange(at, at + len)));
        let s = clusters_of(v, n, block_size, size, 0, to - 1)->Ok_0;
        let x = c.subrange(at, at + len);
        assert(s.push(x).drop_last() =~= s);
        assert(c.take(at) + x =~= c.take(at + len));
    }
}

/// What a source serves is what goes into an image.
pub proof fn sources_give_the_content(v: Volume, n: NodeView, c: Seq<u8>, block_size: int)
    requires
        serves(v, n, c),
        block_size > 0,
    ensures
        source_content(v, n, block_size) == Ok::<Seq<u8>, Fault>(c),
{
    let size = c.len() as int;
    pieces_make_the_part(v, n, c, 0, size);
    assert(c.subrange(0, size) =~= c);
    let total = ceil_div(size, block_size);
    ceil_div_covers(size, block_size);
    clusters_make_the_file(v, n, c, block_size, total);
    assert(c.take(size) =~= c);
}

/// A file whose content is held in memory is served from there.
pub proof fn memory_is_served(v: Volume, n: NodeView, c: Seq<u8>)
    requires
        n.payload == PayloadView::Memory(c),
        n.data_size == c.len(),
    ensures
        serves(v, n, c),
{
    assert forall|offset: int, len: int|
        0 <= offset && 0 < len && offset + len <= c.len() implies #[trigger] served(
        v,
        n,
        offset,
        len,
    ) == Ok::<Seq<u8>, Fault>(c.subrange(offset, offset + len)) by {
        assert(window(c, offset, len) =~= c.subrange(offset, offset + len));
    }
}

/// A file of an EROFS image that is stored as it is is served as it reads.
pub proof fn plain_files_are_served(
    sb: erofs::Superblock,
    d: Seq<u8>,
    nid: u64,
    name: Seq<char>,
    fi: Inode,
    context: Option<Seq<char>>,
    c: Seq<u8>,
)
    requires
        fi.layout == 0,
        data_of(sb, d, fi) == Ok::<Seq<u8>, Fault>(c),
        fi.raw_blkaddr * sb.block_size + fi.size <= u64::MAX,
    ensures
        serves(
            Volume::Erofs { sb, d },
            read_node(nid, name, fi, PayloadView::Empty, Seq::empty(), context),
            c,
        ),
{
    let v = Volume::Erofs { sb, d };
    let n = read_node(nid, name, fi, PayloadView::Empty, Seq::empty(), context);
    let base = fi.raw_blkaddr * sb.block_size;
    assert(base >= 0) by (nonlinear_arith)
        requires
            base == fi.raw_blkaddr * sb.block_size,
            fi.raw_blkaddr >= 0,
            sb.block_size >= 0,
    ;
    assert(c.len() == fi.size);
    assert forall|offset: int, len: int|
        0 <= offset && 0 < len && offset + len <= c.len() implies #[trigger] served(
        v,
        n,
        offset,
        len,
    ) == Ok::<Seq<u8>, Fault>(c.subrange(offset, offset + len)) by {
        let at = base + offset;
        assert(c == d.subrange(base, base + fi.size));
        assert(d.subrange(at, at + len) =~= c.subrange(offset, offset + len));
    }
}

proof fn filled_at_once(
    sb: erofs::Superblock,
    d: Seq<u8>,
    fi: Inode,
    x: Seq<u8>,
    offset: int,
    n: int,
)
    requires
        0 < n,
        x.len() == n,
        range_of(sb, d, fi, offset, n) == Ok::<Seq<u8>, Fault>(x),
    ensures
        filled(sb, d, fi, offset, n) == Ok::<Seq<u8>, Fault>(x),
{
    assert(filled(sb, d, fi, offset + x.len(), n - x.len()) == Ok::<Seq<u8>, Fault>(Seq::empty()));
    assert(x + Seq::<u8>::empty() =~= x);
}

/// The rest of a range is read as far as it is asked for.
proof fn filled_parts(sb: erofs::Superblock, d: Seq<u8>, fi: Inode, c: Seq<u8>, offset: int, n: int)
    requires
        0 < sb.block_size,
        d.len() <= u64::MAX,
        fi.layout == LAYOUT_INLINE,
        data_of(sb, d, fi) == Ok::<Seq<u8>, Fault>(c),
        0 <= offset,
        0 < n,
        offset + n <= fi.size,
    ensures
        filled(sb, d, fi, offset, n) == Ok::<Seq<u8>, Fault>(c.subrange(offset, offset + n)),
{
    ranges_are_parts(sb, d, fi, c, offset, n);
    filled_at_once(sb, d, fi, c.subrange(offset, offset + n), offset, n);
}

/// Every file of an EROFS image is served as it reads, whichever way it is
/// stored, where the segments of a compressed one follow each other.
pub proof fn files_are_served_as_they_read(
    sb: erofs::Superblock,
    d: Seq<u8>,
    nid: u64,
    name: Seq<char>,
    fi: Inode,
    context: Option<Seq<char>>,
    c: Seq<u8>,
)
    requires
        0 < sb.block_size,
        d.len() <= u64::MAX,
        inode_of(sb, d, nid) == Ok::<Inode, Fault>(fi),
        data_of(sb, d, fi) == Ok::<Seq<u8>, Fault>(c),
        fi.layout == LAYOUT_COMPRESSED_COMPACT && fi.size > 0 ==> (segments_of(sb, d, fi) matches Ok(
            segs,
        ) && follow(segs, 0, fi.size as int)),
    ensures
        serves(
            Volume::Erofs { sb, d },
            read_node(nid, name, fi, PayloadView::Empty, Seq::empty(), context),
            c,
        ),
{
    let v = Volume::Erofs { sb, d };
    let n = read_node(nid, name, fi, PayloadView::Empty, Seq::empty(), context);
    if fi.size == 0 {
        assert(c.len() == 0);
    } else if fi.layout == LAYOUT_PLAIN {
        assert(0 <= fi.raw_blkaddr * sb.block_size) by (nonlinear_arith);
        plain_files_are_served(sb, d, nid, name, fi, context, c);
    } else if fi.layout == LAYOUT_INLINE {
        ranges_are_parts(sb, d, fi, c, 0, 0);
        assert forall|offset: int, len: int|
            0 <= offset && 0 < len && offset + len <= c.len() implies #[trigger] served(
            v,
            n,
            offset,
            len,
        ) == Ok::<Seq<u8>, Fault>(c.subrange(offset, offset + len)) by {
            filled_parts(sb, d, fi, c, offset, len);
        }
    } else {
        let segs = segments_of(sb, d, fi)->Ok_0;
        contents_are_tiled(sb, d, fi, segs, c);
        assert forall|offset: int, len: int|
            0 <= offset && 0 < len && offset + len <= c.len() implies #[trigger] served(
            v,
            n,
            offset,
            len,
        ) == Ok::<Seq<u8>, Fault>(c.subrange(offset, offset + len)) by {
            tiles_give_ranges(sb, d, segs, 0, c, offset, len);
            assert(begun(c, offset, len, 0) =~= zeros(len));
        }
    }
}

/// What a range holds once the first `done` bytes of it are read.
spec fn opened(c: Seq<u8>, offset: int, len: int, done: int) -> Seq<u8> {
    Seq::new(
        len as nat,
        |i: int|
            if i < done {
                window(c, offset, len)[i]
            } else {
                0
            },
    )
}

/// Reading any range of tiled content gives that range, with zeros behind the
/// end.
proof fn tiles_give_windows(
    sb: erofs::Superblock,
    d: Seq<u8>,
    segs: Seq<Segment>,
    from: int,
    c: Seq<u8>,
    offset: int,
    len: int,
)
    requires
        tiled(sb, d, segs, from, c),
        0 <= from,
        0 <= offset,
        0 <= len,
    ensures
        ({
            let done = least(greatest(from - offset, 0), len);
            ranged(sb, d, segs, offset, opened(c, offset, len, done), done) matches Ok((x, _))
                && x == window(c, offset, len)
        }),
    decreases segs.len(),
{
    let done = least(greatest(from - offset, 0), len);
    let out = opened(c, offset, len, done);
    if segs.len() == 0 {
        assert(out =~= window(c, offset, len));
    } else {
        let s = segs[0];
        let a = greatest(offset, s.start as int);
        let b = least(offset + out.len(), s.end as int);
        if a >= b {
            assert(least(greatest(s.end - offset, 0), len) == done);
            tiles_give_windows(sb, d, segs.drop_first(), s.end as int, c, offset, len);
        } else {
            assert(0 <= s.physical * sb.block_size) by (nonlinear_arith);
            part_of_segment(sb, d, s, c, a, b);
            let next = splice(out, a - offset, c.subrange(a, b));
            assert(next =~= opened(c, offset, len, b - offset));
            if b - offset >= len {
                assert(next =~= window(c, offset, len));
            } else {
                tiles_give_windows(sb, d, segs.drop_first(), s.end as int, c, offset, len);
            }
        }
    }
}

/// A compressed file of an EROFS image whose segments follow each other is
/// served as it reads at every offset, and as zeros behind its end.
pub proof fn compressed_files_are_served_past_the_end(
    sb: erofs::Superblock,
    d: Seq<u8>,
    nid: u64,
    name: Seq<char>,
    fi: Inode,
    context: Option<Seq<char>>,
    c: Seq<u8>,
    offset: int,
    len: int,
)
    requires
        d.len() <= u64::MAX,
        inode_of(sb, d, nid) == Ok::<Inode, Fault>(fi),
        data_of(sb, d, fi) == Ok::<Seq<u8>, Fault>(c),
        fi.layout == LAYOUT_COMPRESSED_COMPACT,
        fi.size > 0,
        segments_of(sb, d, fi) matches Ok(segs) && follow(segs, 0, fi.size as int),
        0 <= offset,
        0 <= len,
    ensures
        served(
            Volume::Erofs { sb, d },
            read_node(nid, name, fi, PayloadView::Empty, Seq::empty(), context),
            offset,
            len,
        ) == Ok::<Seq<u8>, Fault>(window(c, offset, len)),
{
    let segs = segments_of(sb, d, fi)->Ok_0;
    contents_are_tiled(sb, d, fi, segs, c);
    tiles_give_windows(sb, d, segs, 0, c, offset, len);
    assert(opened(c, offset, len, 0) =~= zeros(len));
}

} // verus!
