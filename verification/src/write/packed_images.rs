//! Whole EROFS images with compressed files: what was written reads back.
use super::blocks::{served, Volume};
use super::fresh::{
    fresh_plan, fresh_writes, inode_image, inode_place, is_plain_file, node_area, node_size,
    placed_tree, raw_block_of, super_bytes, super_length, Fresh,
};
use super::fresh_laws::{
    blocks_in_order, carries, content_bounds, holds, inode_bounds, laid_is_there, laid_stays_apart,
    metadata_arrives, metadata_stays, plans_are_settled, settled_plan, slots_apart,
};
use super::image_laws::{
    contexts_fit, nodes_are_countable, root_number_fits,
    superblocks_read_back, throughout, throughout_renumbered, throughout_the_list,
};
use super::layout::{directory_content, SUPER_END, SUPER_START};
use super::node::{preorder, sorted_tree, NodeView};
use super::packed::{
    all_faithful, clusters_of, faithful, is_packed_file, map_place, indexable, packed_image,
    packs_faithfully, with_packed, with_packed_file, Stream,
};
use super::packed_laws::{
    clusters_have_their_length, clusters_land, clusters_spare_the_rest, clusters_stay_in_range,
    file_clusters, landed, landed_anchor, landed_block, landed_extent, landed_restores,
    landed_stays, landed_words,
};
use super::range_laws::segments_tile;
use super::read_back::{
    bare_node, described, file_there, files_arrive, files_keep_the_metadata, files_there,
    inode_is_there, inode_reads_back, moved_length, nodes_are_listed, plain_file_reads_back,
    readable, regained, regained_but_for_numbers, renumbered_is_readable, sized, source_content,
    tree_reads,
};
use super::rebuild::{marked, moved, prepared, with_files};
use super::serve_laws::serves;
use super::source::tree_of;
use super::store::{laid, laid_all, resized};
use super::unpack_laws::{
    clusters_fill, entries_are_small, entries_match, entries_read, standing, word_bits,
};
use crate::buf::{le16, le_in_window, zeros};
use crate::error::Fault;
use crate::fs::erofs::codec::Algo;
use crate::fs::erofs::compress::{
    bits_of, cluster_size, entries_from, index_of, packing, segments_from, CompactEntry, Packing,
};
use crate::fs::erofs::encode::{entries_of, header_of, joined, value_bits, MAX_PACKED_BLOCK};
use crate::fs::erofs::inode::{data_of, inode_of, Inode};
use crate::fs::erofs::stream_laws::{begun, tiles_give_ranges};
use crate::fs::erofs::{superblock, SuperView, Superblock};
use crate::image::disk_read;
use crate::math::{align_up, ceil_div, ceil_div_covers};
use vstd::arithmetic::power2::pow2;
use vstd::prelude::*;

verus! {

// ---------------------------------------------------------------------
// One file
// ---------------------------------------------------------------------
/// The bits of a block are those that its size is the power of.
pub proof fn block_bits_are_known(fs: Superblock, bits: nat)
    requires
        9 <= bits <= 20,
        fs.block_size == pow2(bits),
    ensures
        bits_of(fs) == bits,
{
    let b = bits_of(fs);
    assert(9 <= b <= 20 && fs.block_size == pow2(b as nat));
    if b < bits {
        vstd::arithmetic::power2::lemma_pow2_strictly_increases(b as nat, bits);
    } else if bits < b {
        vstd::arithmetic::power2::lemma_pow2_strictly_increases(bits, b as nat);
    }
}

/// Blocks that can hold compressed clusters have so many bits.
pub proof fn small_block_bits(fs: Superblock)
    requires
        fs.wf(),
        fs.block_size <= MAX_PACKED_BLOCK,
    ensures
        9 <= bits_of(fs) <= 14,
        value_bits(fs.block_size as int) == word_bits(bits_of(fs)),
        512 <= fs.block_size,
        pow2(0) == 1,
{
    let bits = bits_of(fs);
    assert(9 <= bits <= 20 && fs.block_size == pow2(bits as nat)) by {
        let b = choose|b: nat| 9 <= b <= 20 && fs.block_size == #[trigger] pow2(b);
    }
    vstd::arithmetic::power2::lemma2_to64();
    if bits > 14 {
        vstd::arithmetic::power2::lemma_pow2_strictly_increases(14, bits as nat);
    }
    if bits > 9 {
        vstd::arithmetic::power2::lemma_pow2_strictly_increases(9, bits as nat);
    }
}

/// The entries of the index of a file that landed.
proof fn index_reads_back(
    fs: Superblock,
    d: Seq<u8>,
    fi: Inode,
    v: Volume,
    n: NodeView,
    algo: Algo,
    block: int,
) -> (entries: Seq<CompactEntry>)
    requires
        fs.wf(),
        fs.block_size <= MAX_PACKED_BLOCK,
        sized(v),
        0 < n.data_size <= u32::MAX,
        fi.size == n.data_size,
        fi.advise == 0,
        fi.cluster_bits == 0,
        fi.data_offset % 8 == 0,
        fi.data_offset + 0x800_0000 <= u64::MAX,
        0 < block <= u32::MAX,
        faithful(v, n, algo, fs.block_size as int, n.data_size as int, 0),
        landed(
            d,
            block,
            fi.data_offset + 8,
            v,
            n,
            algo,
            fs.block_size as int,
            n.data_size as int,
            0,
        ),
    ensures
        index_of(fs, d, fi) == Ok::<Seq<CompactEntry>, Fault>(entries),
        cluster_size(fs, fi) == fs.block_size,
        entries_match(
            entries,
            file_clusters(v, n, algo, fs.block_size as int, n.data_size as int, 0),
            0,
        ),
        entries.len() > 0,
        entries[0].pblk == block,
{
    let bs = fs.block_size as int;
    let size = n.data_size as int;
    let total = ceil_div(size, bs);
    small_block_bits(fs);
    ceil_div_covers(size, bs);
    assert(0 < total <= 0x80_0000) by (nonlinear_arith)
        requires
            total * bs >= size,
            total * bs < size + bs,
            0 < size <= 0xffff_ffff,
            bs >= 512,
    ;
    let base = fi.data_offset + 8;
    let p = file_clusters(v, n, algo, bs, size, 0);
    let e = entries_of(p);
    landed_restores(d, block, base, v, n, algo, bs, size, 0);
    let c = clusters_of(v, n, bs, size, 0, total)->Ok_0;
    clusters_have_their_length(v, n, bs, size, 0, total);
    entries_are_small(algo, p, c);
    landed_anchor(d, block, base, v, n, algo, bs, size);
    assert forall|i: int| 0 <= i < e.len() implies super::unpack_laws::small_entry(#[trigger] e[i])
        && le16(d, base + super::packed_laws::word_place(i))
        == crate::fs::erofs::encode::entry_word(e[i], word_bits(bits_of(fs))) && base + i / 2 * 8 + 8
        <= d.len() by {
        landed_words(d, block, base, v, n, algo, bs, size, 0, i);
    }
    assert(bs * 1 == bs);
    assert(cluster_size(fs, fi) == bs);
    assert(packing(fi, total) == (Packing { base, initial: 0, middle: 0 }));
    entries_read(d, base, bits_of(fs), fi, Seq::empty(), e);
    let entries = entries_from(
        d,
        Packing { base, initial: 0, middle: 0 },
        bits_of(fs),
        fi,
        Seq::empty(),
        total,
    )->Ok_0;
    assert(entries_match(entries, p, 0)) by {
        reveal(entries_match);
        assert forall|q: int| 0 <= q < e.len() implies (#[trigger] entries[0 + q]).lcn == 0 + q
            && entries[0 + q].kind == e[q].0 && entries[0 + q].value == e[q].1 by {
            assert(entries[q].lcn == q);
        }
    }
    entries
}

/// The clusters of a compressed file that landed stand in the image, and its
/// index leads to them.
proof fn clusters_stand(
    fs: Superblock,
    d: Seq<u8>,
    fi: Inode,
    v: Volume,
    n: NodeView,
    algo: Algo,
    block: int,
) -> (r: (Seq<CompactEntry>, Seq<Seq<u8>>))
    requires
        fs.wf(),
        fs.block_size <= MAX_PACKED_BLOCK,
        fs.feature_incompat % 2 == 0,
        sized(v),
        0 < n.data_size <= u32::MAX,
        n.erofs_compact_clusters > 0,
        fi.size == n.data_size,
        fi.layout == 3,
        fi.advise == 0,
        fi.cluster_bits == 0,
        fi.algorithm_type == algo.id(),
        fi.data_offset % 8 == 0,
        fi.data_offset + 0x800_0000 <= u64::MAX,
        0 < block,
        block + file_clusters(
            v,
            n,
            algo,
            fs.block_size as int,
            n.data_size as int,
            0,
        ).len() <= u32::MAX,
        faithful(v, n, algo, fs.block_size as int, n.data_size as int, 0),
        landed(
            d,
            block,
            fi.data_offset + 8,
            v,
            n,
            algo,
            fs.block_size as int,
            n.data_size as int,
            0,
        ),
    ensures
        ({
            let (entries, c) = r;
            let bs = fs.block_size as int;
            let size = n.data_size as int;
            let p = file_clusters(v, n, algo, bs, size, 0);
            &&& 512 <= bs
            &&& index_of(fs, d, fi) == Ok::<Seq<CompactEntry>, Fault>(entries)
            &&& cluster_size(fs, fi) == bs
            &&& entries_match(entries, p, 0)
            &&& entries.len() > 0
            &&& entries[0].pblk == block
            &&& standing(fs, d, algo, p, c, block, size, 0)
            &&& source_content(v, n, bs) == Ok::<Seq<u8>, Fault>(joined(c))
            &&& c.len() > 0
            &&& (0 + c.len() - 1) * bs < size <= (0 + c.len()) * bs
        }),
{
    let bs = fs.block_size as int;
    let size = n.data_size as int;
    let total = ceil_div(size, bs);
    let base = fi.data_offset + 8;
    small_block_bits(fs);
    ceil_div_covers(size, bs);
    let p = file_clusters(v, n, algo, bs, size, 0);
    let entries = index_reads_back(fs, d, fi, v, n, algo, block);
    landed_restores(d, block, base, v, n, algo, bs, size, 0);
    let c = clusters_of(v, n, bs, size, 0, total)->Ok_0;
    clusters_have_their_length(v, n, bs, size, 0, total);
    assert(standing(fs, d, algo, p, c, block, size, 0)) by {
        reveal(standing);
        assert forall|q: int| 0 <= q < p.len() implies {
            &&& (#[trigger] p[q]).payload.len() <= fs.block_size
            &&& holds(
                d,
                (block + q) * fs.block_size,
                p[q].payload + zeros(fs.block_size - p[q].payload.len()),
            )
        } by {
            landed_block(d, block, base, v, n, algo, bs, size, 0, q);
        }
    }
    assert(total > 0) by (nonlinear_arith)
        requires
            total * bs >= size,
            size > 0,
            bs > 0,
    ;
    assert((0 + c.len() - 1) * bs < size <= (0 + c.len()) * bs) by (nonlinear_arith)
        requires
            total * bs >= size,
            total * bs < size + bs,
            c.len() == total,
    ;
    (entries, c)
}

/// A compressed file that landed reads back as its clusters.
pub proof fn compressed_files_read_back(
    fs: Superblock,
    d: Seq<u8>,
    fi: Inode,
    v: Volume,
    n: NodeView,
    algo: Algo,
    block: int,
)
    requires
        fs.wf(),
        fs.block_size <= MAX_PACKED_BLOCK,
        fs.feature_incompat % 2 == 0,
        sized(v),
        0 < n.data_size <= u32::MAX,
        n.erofs_compact_clusters > 0,
        fi.size == n.data_size,
        fi.layout == 3,
        fi.advise == 0,
        fi.cluster_bits == 0,
        fi.algorithm_type == algo.id(),
        fi.data_offset % 8 == 0,
        fi.data_offset + 0x800_0000 <= u64::MAX,
        0 < block,
        block + file_clusters(
            v,
            n,
            algo,
            fs.block_size as int,
            n.data_size as int,
            0,
        ).len() <= u32::MAX,
        faithful(v, n, algo, fs.block_size as int, n.data_size as int, 0),
        landed(
            d,
            block,
            fi.data_offset + 8,
            v,
            n,
            algo,
            fs.block_size as int,
            n.data_size as int,
            0,
        ),
    ensures
        data_of(fs, d, fi) == source_content(v, n, fs.block_size as int),
        source_content(v, n, fs.block_size as int) is Ok,
{
    let bs = fs.block_size as int;
    let size = n.data_size as int;
    let (entries, c) = clusters_stand(fs, d, fi, v, n, algo, block);
    let p = file_clusters(v, n, algo, bs, size, 0);
    let out = zeros(size);
    clusters_fill(fs, d, algo, entries, fi, p, c, block, 0, None, out);
    assert(0 * bs == 0);
    assert(out.take(0) + joined(c) =~= joined(c));
}

/// A compressed file that landed is served as it reads.
pub proof fn compressed_files_are_served(
    fs: Superblock,
    d: Seq<u8>,
    fi: Inode,
    v: Volume,
    n: NodeView,
    algo: Algo,
    block: int,
    r: NodeView,
)
    requires
        fs.wf(),
        fs.block_size <= MAX_PACKED_BLOCK,
        fs.feature_incompat % 2 == 0,
        sized(v),
        0 < n.data_size <= u32::MAX,
        n.erofs_compact_clusters > 0,
        fi.size == n.data_size,
        fi.layout == 3,
        fi.advise == 0,
        fi.cluster_bits == 0,
        fi.algorithm_type == algo.id(),
        fi.data_offset % 8 == 0,
        fi.data_offset + 0x800_0000 <= u64::MAX,
        0 < block,
        block + file_clusters(
            v,
            n,
            algo,
            fs.block_size as int,
            n.data_size as int,
            0,
        ).len() <= u32::MAX,
        faithful(v, n, algo, fs.block_size as int, n.data_size as int, 0),
        landed(
            d,
            block,
            fi.data_offset + 8,
            v,
            n,
            algo,
            fs.block_size as int,
            n.data_size as int,
            0,
        ),
        inode_of(fs, d, r.original_nid) == Ok::<Inode, Fault>(fi),
        r.layout == 3,
        r.payload is Empty,
        r.data_size == n.data_size,
    ensures
        serves(
            Volume::Erofs { sb: fs, d },
            r,
            source_content(v, n, fs.block_size as int)->Ok_0,
        ),
{
    let bs = fs.block_size as int;
    let size = n.data_size as int;
    let (entries, c) = clusters_stand(fs, d, fi, v, n, algo, block);
    let p = file_clusters(v, n, algo, bs, size, 0);
    let full = joined(c);
    let out = zeros(size);
    clusters_fill(fs, d, algo, entries, fi, p, c, block, 0, None, out);
    assert(0 * bs == 0);
    assert(full.skip(0) =~= full);
    segments_tile(fs, d, algo, entries, fi, p, c, block, 0, None, full);
    let segs = segments_from(entries, fi, bs, 0, None)->Ok_0;
    let w = Volume::Erofs { sb: fs, d };
    assert forall|offset: int, len: int|
        0 <= offset && 0 < len && offset + len <= full.len() implies #[trigger] served(
        w,
        r,
        offset,
        len,
    ) == Ok::<Seq<u8>, Fault>(full.subrange(offset, offset + len)) by {
        tiles_give_ranges(fs, d, segs, 0, full, offset, len);
        assert(begun(full, offset, len, 0) =~= zeros(len));
    }
}

// ---------------------------------------------------------------------
// Maps
// ---------------------------------------------------------------------
/// Where the map of a compressed file ends: its header and its index.
pub open spec fn map_end(f: Fresh, n: NodeView) -> int {
    map_place(f, n) + 8 + 8 * ceil_div(ceil_div(n.data_size as int, f.block_size), 2)
}

/// A regular file is compressed where it has content and blocks are not too
/// large, with its clusters counted; nothing else is.
pub open spec fn is_counted(block_size: int) -> spec_fn(NodeView) -> bool {
    |n: NodeView|
        !n.is_dir() ==> n.erofs_compact_clusters == if indexable(block_size) && n.is_regular()
            && n.data_size > 0 {
            ceil_div(n.data_size as int, block_size)
        } else {
            0
        }
}

/// The regular files of the list are compressed where they have content.
pub open spec fn all_counted(f: Fresh) -> bool {
    forall|k: int| 0 <= k < f.list.len() ==> is_counted(f.block_size)(#[trigger] f.list[k])
}

/// The map of a compressed file lies in the slots of its node, behind the
/// inode.
proof fn map_bounds(f: Fresh, next: int, k: int)
    requires
        settled_plan(f, next),
        f.block_size % 32 == 0,
        all_counted(f),
        0 <= k < f.list.len(),
        is_packed_file(f.list[k]),
    ensures
        map_place(f, f.list[k]) == inode_place(f, f.list[k].nid) + inode_image(f, k).len(),
        map_place(f, f.list[k]) % 8 == 0,
        map_end(f, f.list[k]) <= inode_place(f, f.list[k].nid) + f.list[k].slots() * 32,
        map_place(f, f.list[k]) + 8 <= map_end(f, f.list[k]),
        map_end(f, f.list[k]) <= f.table_block * f.block_size,
        0 < f.list[k].data_size <= u32::MAX,
{
    let n = f.list[k];
    let bs = f.block_size;
    let clusters = n.erofs_compact_clusters as int;
    assert(clusters == ceil_div(n.data_size as int, bs) && n.data_size > 0) by {
        assert(is_counted(bs)(n));
    }
    assert(n.data_size <= u32::MAX) by {
        assert(node_size(n, bs) <= u32::MAX);
    }
    inode_bounds(f, next, k);
    aligned_place(f, n.nid);
    map_slots(n);
    map_is_behind(
        inode_place(f, n.nid),
        n.body(),
        node_area(f, n).len() as int,
        clusters,
        n.slots(),
    );
}

proof fn map_is_behind(place: int, body: int, area: int, clusters: int, slots: int)
    requires
        0 <= place,
        place % 32 == 0,
        body == 32 || body == 64,
        area == 0 || area == 16,
        0 <= clusters,
        slots * 32 >= body + 8 + 8 * ceil_div(clusters, 2) + area,
    ensures
        align_up(place + body + area, 8) == place + body + area,
        (place + body + area) % 8 == 0,
        place + body + area + 8 + 8 * ceil_div(clusters, 2) <= place + slots * 32,
        0 <= ceil_div(clusters, 2),
{
    ceil_div_covers(place + body + area, 8);
    ceil_div_covers(clusters, 2);
}

proof fn aligned_place(f: Fresh, nid: u64)
    requires
        f.block_size % 32 == 0,
    ensures
        inode_place(f, nid) % 32 == 0,
{
    let q = f.block_size / 32;
    let base = f.meta_block * f.block_size;
    assert(base == 32 * (f.meta_block * q)) by (nonlinear_arith)
        requires
            base == f.meta_block * f.block_size,
            f.block_size == 32 * q,
    ;
}

proof fn map_slots(n: NodeView)
    requires
        n.erofs_compact_clusters > 0,
    ensures
        n.slots() * 32 >= n.body() + 8 + 8 * ceil_div(n.erofs_compact_clusters as int, 2)
            + if n.labelled() {
            16int
        } else {
            0
        },
{
    let area: int = if n.labelled() {
        16
    } else {
        0
    };
    let index = ceil_div(n.erofs_compact_clusters as int, 2) * 8;
    ceil_div_covers(n.erofs_compact_clusters as int, 2);
    ceil_div_covers(n.body() + area + 8 + index, 32);
}

/// The map of a compressed file and the inode of any node lie apart.
proof fn maps_spare_inodes(f: Fresh, next: int, k: int, j: int)
    requires
        settled_plan(f, next),
        f.block_size % 32 == 0,
        all_counted(f),
        0 <= k < f.list.len(),
        0 <= j < f.list.len(),
        is_packed_file(f.list[j]),
    ensures
        inode_place(f, f.list[k].nid) + inode_image(f, k).len() <= map_place(f, f.list[j])
            || map_end(f, f.list[j]) <= inode_place(f, f.list[k].nid),
{
    map_bounds(f, next, j);
    inode_bounds(f, next, k);
    inode_bounds(f, next, j);
    let base = f.meta_block * f.block_size;
    if k < j {
        slots_apart(f.list, 1, next, base, k, j);
    } else if j < k {
        slots_apart(f.list, 1, next, base, j, k);
    }
}

/// The maps of two compressed files lie apart.
proof fn maps_lie_apart(f: Fresh, next: int, i: int, j: int)
    requires
        settled_plan(f, next),
        f.block_size % 32 == 0,
        all_counted(f),
        0 <= i < f.list.len(),
        0 <= j < f.list.len(),
        i != j,
        is_packed_file(f.list[i]),
        is_packed_file(f.list[j]),
    ensures
        map_end(f, f.list[i]) <= map_place(f, f.list[j]) || map_end(f, f.list[j]) <= map_place(
            f,
            f.list[i],
        ),
{
    map_bounds(f, next, i);
    map_bounds(f, next, j);
    inode_bounds(f, next, i);
    inode_bounds(f, next, j);
    let base = f.meta_block * f.block_size;
    if i < j {
        slots_apart(f.list, 1, next, base, i, j);
    } else {
        slots_apart(f.list, 1, next, base, j, i);
    }
}

/// Writing a compressed file touches nothing but its map and the blocks from
/// the next one on.
proof fn packed_file_spares(
    s: (Seq<u8>, int),
    v: Volume,
    f: Fresh,
    n: NodeView,
    algo: Algo,
    at: int,
    y: Seq<u8>,
)
    requires
        sized(v),
        512 <= f.block_size <= 65536,
        n.data_size > 0,
        0 <= s.1,
        0 <= map_place(f, n),
        faithful(v, n, algo, f.block_size, n.data_size as int, 0),
        holds(s.0, at, y),
        at + y.len() <= s.1 * f.block_size,
        at + y.len() <= map_place(f, n) || map_end(f, n) <= at,
    ensures
        with_packed_file(s, v, f, n, algo) matches Ok(t) ==> holds(t.0, at, y) && t.0.len()
            >= s.0.len() && t.1 >= s.1,
{
    let map = map_place(f, n);
    let header = header_of(algo);
    let first = Stream { content: laid(s.0, map, header), block: s.1, index: map + 8 };
    ceil_div_covers(n.data_size as int, f.block_size);
    ceil_div_covers(ceil_div(n.data_size as int, f.block_size), 2);
    laid_stays_apart(s.0, map, header, at, y);
    clusters_spare_the_rest(
        first,
        v,
        n,
        algo,
        f.block_size,
        n.data_size as int,
        0,
        at,
        y,
    );
}

/// A place that no map of a compressed file among the first `k` nodes
/// touches.
pub open spec fn clear_of_maps(f: Fresh, k: int, at: int, len: int) -> bool {
    forall|j: int|
        0 <= j < k && is_packed_file(#[trigger] f.list[j]) ==> at + len <= map_place(f, f.list[j])
            || map_end(f, f.list[j]) <= at
}

/// Writing compressed files touches nothing but their maps and the blocks
/// from the next one on.
proof fn packed_files_spare(
    s: (Seq<u8>, int),
    v: Volume,
    f: Fresh,
    next: int,
    algo: Algo,
    k: int,
    at: int,
    y: Seq<u8>,
)
    requires
        sized(v),
        settled_plan(f, next),
        f.block_size % 32 == 0,
        all_counted(f),
        all_faithful(v, f, algo, f.list.len() as int),
        0 <= k <= f.list.len(),
        0 <= s.1,
        holds(s.0, at, y),
        at + y.len() <= s.1 * f.block_size,
        clear_of_maps(f, k, at, y.len() as int),
    ensures
        with_packed(s, v, f, algo, k) matches Ok(t) ==> holds(t.0, at, y) && t.0.len()
            >= s.0.len() && t.1 >= s.1,
    decreases k,
{
    if k > 0 {
        packed_files_spare(s, v, f, next, algo, k - 1, at, y);
        let n = f.list[k - 1];
        match with_packed(s, v, f, algo, k - 1) {
            Ok(t) => {
                if is_packed_file(n) {
                    map_bounds(f, next, k - 1);
                    inode_bounds(f, next, k - 1);
                    file_is_faithful(v, f, algo, k - 1);
                    assert(at + y.len() <= t.1 * f.block_size) by (nonlinear_arith)
                        requires
                            at + y.len() <= s.1 * f.block_size,
                            s.1 <= t.1,
                            f.block_size > 0,
                    ;
                    packed_file_spares(t, v, f, n, algo, at, y);
                }
            },
            Err(_) => {},
        }
    }
}

proof fn file_is_faithful(v: Volume, f: Fresh, algo: Algo, k: int)
    requires
        all_faithful(v, f, algo, f.list.len() as int),
        0 <= k < f.list.len(),
        is_packed_file(f.list[k]),
    ensures
        faithful(v, f.list[k], algo, f.block_size, f.list[k].data_size as int, 0),
{
    reveal(all_faithful);
}

/// Writing compressed files leaves the metadata alone.
proof fn packed_files_keep_the_metadata(
    s: (Seq<u8>, int),
    v: Volume,
    f: Fresh,
    next: int,
    algo: Algo,
)
    requires
        sized(v),
        settled_plan(f, next),
        f.block_size % 32 == 0,
        all_counted(f),
        all_faithful(v, f, algo, f.list.len() as int),
        s.1 == f.end_block,
        carries(s.0, f),
    ensures
        with_packed(s, v, f, algo, f.list.len() as int) matches Ok(t) ==> carries(t.0, f),
{
    let k = f.list.len() as int;
    let bs = f.block_size;
    blocks_in_order(f, next);
    match with_packed(s, v, f, algo, k) {
        Ok(t) => {
            if f.table.len() > 0 {
                let at = f.table_block * bs;
                above_is_clear(f, next, at, f.table.len() as int);
                packed_files_spare(s, v, f, next, algo, k, at, f.table);
            }
            assert forall|i: int| 0 <= i < k implies holds(
                t.0,
                inode_place(f, (#[trigger] f.list[i]).nid),
                inode_image(f, i),
            ) by {
                let at = inode_place(f, f.list[i].nid);
                let y = inode_image(f, i);
                inode_bounds(f, next, i);
                assert forall|j: int| 0 <= j < k && is_packed_file(#[trigger] f.list[j]) implies at
                    + y.len() <= map_place(f, f.list[j]) || map_end(f, f.list[j]) <= at by {
                    maps_spare_inodes(f, next, i, j);
                }
                packed_files_spare(s, v, f, next, algo, k, at, y);
            }
            assert forall|i: int| 0 <= i < k && (#[trigger] f.list[i]).is_dir() implies holds(
                t.0,
                raw_block_of(f, i) * bs,
                directory_content(f.list[i], bs),
            ) by {
                let at = raw_block_of(f, i) * bs;
                let y = directory_content(f.list[i], bs);
                content_bounds(f, next, i);
                above_is_clear(f, next, at, y.len() as int);
                packed_files_spare(s, v, f, next, algo, k, at, y);
            }
        },
        Err(_) => {},
    }
}

proof fn above_is_clear(f: Fresh, next: int, at: int, len: int)
    requires
        settled_plan(f, next),
        f.block_size % 32 == 0,
        all_counted(f),
        f.table_block * f.block_size <= at,
    ensures
        clear_of_maps(f, f.list.len() as int, at, len),
{
    assert forall|j: int| 0 <= j < f.list.len() && is_packed_file(#[trigger] f.list[j]) implies at
        + len <= map_place(f, f.list[j]) || map_end(f, f.list[j]) <= at by {
        map_bounds(f, next, j);
    }
}

// ---------------------------------------------------------------------
// Files
// ---------------------------------------------------------------------
/// The image `d` holds a compressed file: the header of its map, its index,
/// and its clusters from block `block` on.
pub open spec fn packed_there(
    d: Seq<u8>,
    v: Volume,
    f: Fresh,
    n: NodeView,
    algo: Algo,
    block: int,
) -> bool {
    &&& holds(d, map_place(f, n), header_of(algo))
    &&& landed(
        d,
        block,
        map_place(f, n) + 8,
        v,
        n,
        algo,
        f.block_size,
        n.data_size as int,
        0,
    )
}

/// The blocks that a compressed file takes.
pub open spec fn packed_length(v: Volume, f: Fresh, n: NodeView, algo: Algo) -> int {
    file_clusters(v, n, algo, f.block_size, n.data_size as int, 0).len() as int
}

/// A compressed file is there once it is written.
proof fn packed_file_lands(s: (Seq<u8>, int), v: Volume, f: Fresh, n: NodeView, algo: Algo)
    requires
        sized(v),
        512 <= f.block_size <= 65536,
        n.data_size > 0,
        0 < s.1 <= u32::MAX,
        0 <= map_place(f, n),
        map_end(f, n) <= s.1 * f.block_size,
        faithful(v, n, algo, f.block_size, n.data_size as int, 0),
    ensures
        with_packed_file(s, v, f, n, algo) matches Ok(t) ==> {
            &&& packed_there(t.0, v, f, n, algo, s.1)
            &&& t.1 == s.1 + packed_length(v, f, n, algo)
            &&& t.1 <= u32::MAX
        },
{
    let map = map_place(f, n);
    let size = n.data_size as int;
    let header = header_of(algo);
    let first = Stream { content: laid(s.0, map, header), block: s.1, index: map + 8 };
    ceil_div_covers(size, f.block_size);
    ceil_div_covers(ceil_div(size, f.block_size), 2);
    laid_is_there(s.0, map, header);
    clusters_spare_the_rest(first, v, n, algo, f.block_size, size, 0, map, header);
    clusters_land(first, v, n, algo, f.block_size, size, 0);
    clusters_stay_in_range(first, v, n, algo, f.block_size, size, 0);
}

/// A compressed file stays in every image that keeps the bytes of its map and
/// of its blocks.
proof fn packed_file_stays(
    d: Seq<u8>,
    e: Seq<u8>,
    v: Volume,
    f: Fresh,
    n: NodeView,
    algo: Algo,
    block: int,
)
    requires
        sized(v),
        512 <= f.block_size <= 65536,
        n.data_size > 0,
        0 <= block,
        0 <= map_place(f, n),
        faithful(v, n, algo, f.block_size, n.data_size as int, 0),
        packed_there(d, v, f, n, algo, block),
        map_end(f, n) <= d.len(),
        (block + packed_length(v, f, n, algo)) * f.block_size <= d.len(),
        holds(e, map_place(f, n), d.subrange(map_place(f, n), map_end(f, n))),
        holds(
            e,
            block * f.block_size,
            d.subrange(
                block * f.block_size,
                (block + packed_length(v, f, n, algo)) * f.block_size,
            ),
        ),
    ensures
        packed_there(e, v, f, n, algo, block),
{
    let bs = f.block_size;
    let map = map_place(f, n);
    let size = n.data_size as int;
    let p = packed_length(v, f, n, algo);
    let header = header_of(algo);
    ceil_div_covers(size, bs);
    ceil_div_covers(ceil_div(size, bs), 2);
    assert(0 <= block * bs <= (block + p) * bs) by (nonlinear_arith)
        requires
            0 <= block,
            0 <= p,
            0 < bs,
    ;
    let index_bytes = d.subrange(map, map_end(f, n));
    let block_bytes = d.subrange(block * bs, (block + p) * bs);
    assert(e.subrange(map, map + 8) =~= e.subrange(map, map + index_bytes.len()).subrange(0, 8));
    assert(index_bytes.subrange(0, 8) =~= d.subrange(map, map + 8));
    landed_stays(
        d,
        e,
        block,
        map + 8,
        v,
        n,
        algo,
        bs,
        size,
        0,
        map,
        block * bs,
        index_bytes,
        block_bytes,
    );
}

/// How far a compressed file reaches that is there.
proof fn packed_extent(d: Seq<u8>, v: Volume, f: Fresh, n: NodeView, algo: Algo, block: int)
    requires
        sized(v),
        512 <= f.block_size <= 65536,
        n.data_size > 0,
        faithful(v, n, algo, f.block_size, n.data_size as int, 0),
        packed_there(d, v, f, n, algo, block),
    ensures
        map_end(f, n) <= d.len(),
        (block + packed_length(v, f, n, algo)) * f.block_size <= d.len(),
{
    let size = n.data_size as int;
    let total = ceil_div(size, f.block_size);
    ceil_div_covers(size, f.block_size);
    assert(total > 0) by (nonlinear_arith)
        requires
            total * f.block_size >= size,
            size > 0,
            f.block_size > 0,
    ;
    landed_extent(d, block, map_place(f, n) + 8, v, n, algo, f.block_size, size, 0);
}

/// Every compressed file is there once all are written.
proof fn packed_files_land(
    s: (Seq<u8>, int),
    v: Volume,
    f: Fresh,
    next: int,
    algo: Algo,
    k: int,
    j: int,
) -> (block: int)
    requires
        sized(v),
        settled_plan(f, next),
        f.block_size % 32 == 0,
        all_counted(f),
        all_faithful(v, f, algo, f.list.len() as int),
        0 <= j < k <= f.list.len(),
        s.1 == f.end_block,
        is_packed_file(f.list[j]),
        with_packed(s, v, f, algo, k) is Ok,
    ensures
        ({
            let t = with_packed(s, v, f, algo, k)->Ok_0;
            &&& f.end_block <= block
            &&& block + packed_length(v, f, f.list[j], algo) <= t.1 <= u32::MAX
            &&& packed_there(t.0, v, f, f.list[j], algo, block)
        }),
    decreases k,
{
    let bs = f.block_size;
    let before = with_packed(s, v, f, algo, k - 1)->Ok_0;
    let t = with_packed(s, v, f, algo, k)->Ok_0;
    let own = f.list[j];
    blocks_in_order(f, next);
    map_bounds(f, next, j);
    inode_bounds(f, next, j);
    file_is_faithful(v, f, algo, j);
    blocks_stay_in_range(s, v, f, next, algo, k - 1);
    assert(map_end(f, own) <= before.1 * bs) by {
        assert(f.end_block * bs <= before.1 * bs) by (nonlinear_arith)
            requires
                f.end_block <= before.1,
                bs > 0,
        ;
    }
    if j == k - 1 {
        packed_file_lands(before, v, f, own, algo);
        before.1
    } else {
        let block = packed_files_land(s, v, f, next, algo, k - 1, j);
        if is_packed_file(f.list[k - 1]) {
            next_file_spares(before, v, f, next, algo, k - 1, j, block);
        }
        block
    }
}

/// The next compressed file leaves one alone that is there.
proof fn next_file_spares(
    s: (Seq<u8>, int),
    v: Volume,
    f: Fresh,
    next: int,
    algo: Algo,
    i: int,
    j: int,
    block: int,
)
    requires
        sized(v),
        settled_plan(f, next),
        f.block_size % 32 == 0,
        all_counted(f),
        all_faithful(v, f, algo, f.list.len() as int),
        0 <= j < i < f.list.len(),
        is_packed_file(f.list[i]),
        is_packed_file(f.list[j]),
        f.end_block <= block,
        block + packed_length(v, f, f.list[j], algo) <= s.1 <= u32::MAX,
        packed_there(s.0, v, f, f.list[j], algo, block),
        map_end(f, f.list[j]) <= s.1 * f.block_size,
    ensures
        with_packed_file(s, v, f, f.list[i], algo) matches Ok(t) ==> {
            &&& packed_there(t.0, v, f, f.list[j], algo, block)
            &&& s.1 <= t.1 <= u32::MAX
        },
{
    blocks_in_order(f, next);
    map_facts(f, next, j);
    map_facts(f, next, i);
    maps_lie_apart(f, next, j, i);
    file_is_faithful(v, f, algo, j);
    file_is_faithful(v, f, algo, i);
    other_file_spares(s, v, f, f.list[i], f.list[j], algo, block);
}

proof fn map_facts(f: Fresh, next: int, k: int)
    requires
        settled_plan(f, next),
        f.block_size % 32 == 0,
        all_counted(f),
        0 <= k < f.list.len(),
        is_packed_file(f.list[k]),
    ensures
        512 <= f.block_size <= 65536,
        f.list[k].data_size > 0,
        0 <= map_place(f, f.list[k]) <= map_end(f, f.list[k]),
        map_end(f, f.list[k]) <= f.end_block * f.block_size,
{
    blocks_in_order(f, next);
    map_bounds(f, next, k);
    inode_bounds(f, next, k);
    assert(f.table_block * f.block_size <= f.end_block * f.block_size) by (nonlinear_arith)
        requires
            f.table_block <= f.end_block,
            0 < f.block_size,
    ;
}

#[verifier::rlimit(40)]
proof fn other_file_spares(
    s: (Seq<u8>, int),
    v: Volume,
    f: Fresh,
    n: NodeView,
    own: NodeView,
    algo: Algo,
    block: int,
)
    requires
        sized(v),
        512 <= f.block_size <= 65536,
        n.data_size > 0,
        own.data_size > 0,
        0 <= map_place(f, n) <= map_end(f, n) <= f.end_block * f.block_size,
        0 <= map_place(f, own) <= map_end(f, own),
        map_end(f, own) <= map_place(f, n) || map_end(f, n) <= map_place(f, own),
        faithful(v, n, algo, f.block_size, n.data_size as int, 0),
        faithful(v, own, algo, f.block_size, own.data_size as int, 0),
        0 <= f.end_block <= block,
        block + packed_length(v, f, own, algo) <= s.1 <= u32::MAX,
        packed_there(s.0, v, f, own, algo, block),
        map_end(f, own) <= s.1 * f.block_size,
    ensures
        with_packed_file(s, v, f, n, algo) matches Ok(t) ==> {
            &&& packed_there(t.0, v, f, own, algo, block)
            &&& s.1 <= t.1 <= u32::MAX
        },
{
    let bs = f.block_size;
    packed_extent(s.0, v, f, own, algo, block);
    let map = map_place(f, own);
    let p = packed_length(v, f, own, algo);
    let x = s.0.subrange(map, map_end(f, own));
    let y = s.0.subrange(block * bs, (block + p) * bs);
    assert(0 <= block * bs <= (block + p) * bs <= s.1 * bs && f.end_block * bs <= block * bs)
        by (nonlinear_arith)
        requires
            0 <= f.end_block <= block,
            0 <= p,
            block + p <= s.1,
            bs > 0,
    ;
    packed_file_spares(s, v, f, n, algo, map, x);
    packed_file_spares(s, v, f, n, algo, block * bs, y);
    packed_file_lands_range(s, v, f, n, algo);
    match with_packed_file(s, v, f, n, algo) {
        Ok(t) => {
            packed_file_stays(s.0, t.0, v, f, own, algo, block);
        },
        Err(_) => {},
    }
}

proof fn packed_file_lands_range(s: (Seq<u8>, int), v: Volume, f: Fresh, n: NodeView, algo: Algo)
    requires
        s.1 <= u32::MAX,
    ensures
        with_packed_file(s, v, f, n, algo) matches Ok(t) ==> t.1 <= u32::MAX,
{
    let first = Stream {
        content: laid(s.0, map_place(f, n), header_of(algo)),
        block: s.1,
        index: map_place(f, n) + 8,
    };
    clusters_stay_in_range(first, v, n, algo, f.block_size, n.data_size as int, 0);
}

proof fn blocks_stay_in_range(
    s: (Seq<u8>, int),
    v: Volume,
    f: Fresh,
    next: int,
    algo: Algo,
    k: int,
)
    requires
        sized(v),
        settled_plan(f, next),
        f.block_size % 32 == 0,
        all_counted(f),
        all_faithful(v, f, algo, f.list.len() as int),
        0 <= k <= f.list.len(),
        s.1 == f.end_block,
    ensures
        with_packed(s, v, f, algo, k) matches Ok(t) ==> f.end_block <= t.1 <= u32::MAX,
    decreases k,
{
    if k > 0 {
        blocks_stay_in_range(s, v, f, next, algo, k - 1);
        let n = f.list[k - 1];
        match with_packed(s, v, f, algo, k - 1) {
            Ok(t) => {
                if is_packed_file(n) {
                    map_bounds(f, next, k - 1);
                    inode_bounds(f, next, k - 1);
                    blocks_in_order(f, next);
                    file_is_faithful(v, f, algo, k - 1);
                    packed_file_lands_range(t, v, f, n, algo);
                    let nothing = Seq::<u8>::empty();
                    assert(t.0.subrange(0, 0) =~= nothing);
                    assert(0 <= t.1 * f.block_size) by (nonlinear_arith)
                        requires
                            0 <= t.1,
                            0 < f.block_size,
                    ;
                    packed_file_spares(t, v, f, n, algo, 0, nothing);
                }
            },
            Err(_) => {},
        }
    }
}

// ---------------------------------------------------------------------
// Images
// ---------------------------------------------------------------------
proof fn marked_is_counted(n: NodeView, block_size: int)
    requires
        block_size > 0,
    ensures
        throughout(marked(n, block_size, indexable(block_size)), is_counted(block_size)),
    decreases n,
{
    let m = marked(n, block_size, indexable(block_size));
    ceil_div_covers(n.data_size as int, block_size);
    assert(is_counted(block_size)(m));
    assert forall|i: int| 0 <= i < m.children.len() implies throughout(
        #[trigger] m.children[i],
        is_counted(block_size),
    ) by {
        marked_is_counted(n.children[i], block_size);
    }
}

proof fn cutting_keeps(s: Seq<u8>, n: int, at: int, y: Seq<u8>)
    requires
        holds(s, at, y),
        at + y.len() <= n,
    ensures
        holds(resized(s, n), at, y),
{
    let t = resized(s, n);
    assert forall|i: int| 0 <= i < y.len() implies t[at + i] == y[i] by {
        assert(s.subrange(at, at + y.len())[i] == y[i]);
    }
    assert(t.subrange(at, at + y.len()) =~= y);
}

proof fn cutting_keeps_the_metadata(s: Seq<u8>, f: Fresh, next: int, n: int)
    requires
        settled_plan(f, next),
        carries(s, f),
        f.end_block * f.block_size <= n,
    ensures
        carries(resized(s, n), f),
{
    blocks_in_order(f, next);
    if f.table.len() > 0 {
        cutting_keeps(s, n, f.table_block * f.block_size, f.table);
    }
    assert forall|k: int| 0 <= k < f.list.len() implies holds(
        resized(s, n),
        inode_place(f, (#[trigger] f.list[k]).nid),
        inode_image(f, k),
    ) by {
        inode_bounds(f, next, k);
        cutting_keeps(s, n, inode_place(f, f.list[k].nid), inode_image(f, k));
    }
    assert forall|k: int| 0 <= k < f.list.len() && (#[trigger] f.list[k]).is_dir() implies holds(
        resized(s, n),
        raw_block_of(f, k) * f.block_size,
        directory_content(f.list[k], f.block_size),
    ) by {
        content_bounds(f, next, k);
        cutting_keeps(
            s,
            n,
            raw_block_of(f, k) * f.block_size,
            directory_content(f.list[k], f.block_size),
        );
    }
}

/// The superblock and the last cut leave a compressed file alone.
proof fn finishing_keeps_a_file(
    s: Seq<u8>,
    v: Volume,
    f: Fresh,
    next: int,
    algo: Algo,
    j: int,
    block: int,
    x: Seq<u8>,
    blocks: int,
)
    requires
        sized(v),
        settled_plan(f, next),
        f.block_size % 32 == 0,
        f.block_size >= 2048 || f.meta_block * f.block_size >= 1024,
        all_counted(f),
        all_faithful(v, f, algo, f.list.len() as int),
        0 <= j < f.list.len(),
        is_packed_file(f.list[j]),
        f.end_block <= block,
        block + packed_length(v, f, f.list[j], algo) <= blocks,
        packed_there(s, v, f, f.list[j], algo, block),
        x.len() == SUPER_END - SUPER_START,
    ensures
        packed_there(
            resized(laid(s, SUPER_START as int, x), blocks * f.block_size),
            v,
            f,
            f.list[j],
            algo,
            block,
        ),
{
    let bs = f.block_size;
    let own = f.list[j];
    let p = packed_length(v, f, own, algo);
    let map = map_place(f, own);
    blocks_in_order(f, next);
    map_bounds(f, next, j);
    inode_bounds(f, next, j);
    file_is_faithful(v, f, algo, j);
    packed_extent(s, v, f, own, algo, block);
    assert(0 <= block * bs <= (block + p) * bs <= blocks * bs && f.end_block * bs <= block * bs)
        by (nonlinear_arith)
        requires
            0 <= f.end_block <= block,
            0 <= p,
            block + p <= blocks,
            bs > 0,
    ;
    let a = s.subrange(map, map_end(f, own));
    let b = s.subrange(block * bs, (block + p) * bs);
    let t = laid(s, SUPER_START as int, x);
    laid_stays_apart(s, SUPER_START as int, x, map, a);
    laid_stays_apart(s, SUPER_START as int, x, block * bs, b);
    cutting_keeps(t, blocks * bs, map, a);
    cutting_keeps(t, blocks * bs, block * bs, b);
    packed_file_stays(s, resized(t, blocks * bs), v, f, own, algo, block);
}

/// Compressed files, the superblock and the last cut leave a file alone that
/// is stored as it is.
proof fn plain_file_stays(
    first: (Seq<u8>, int),
    s: Seq<u8>,
    v: Volume,
    f: Fresh,
    next: int,
    algo: Algo,
    k: int,
    x: Seq<u8>,
    blocks: int,
)
    requires
        sized(v),
        settled_plan(f, next),
        f.block_size % 32 == 0,
        f.block_size >= 2048 || f.meta_block * f.block_size >= 1024,
        all_counted(f),
        all_faithful(v, f, algo, f.list.len() as int),
        x.len() == SUPER_END - SUPER_START,
        first.1 == f.end_block,
        with_packed(first, v, f, algo, f.list.len() as int) == Ok::<(Seq<u8>, int), Fault>(
            (s, blocks),
        ),
        0 <= k < f.list.len(),
        is_plain_file(f.list[k]),
        f.list[k].data_size > 0,
        moved(v, f.list[k], 0, f.list[k].data_size as int) is Ok,
        holds(
            first.0,
            raw_block_of(f, k) * f.block_size,
            moved(v, f.list[k], 0, f.list[k].data_size as int)->Ok_0,
        ),
    ensures
        holds(
            resized(laid(s, SUPER_START as int, x), blocks * f.block_size),
            raw_block_of(f, k) * f.block_size,
            moved(v, f.list[k], 0, f.list[k].data_size as int)->Ok_0,
        ),
{
    let bs = f.block_size;
    let count = f.list.len() as int;
    let n = f.list[k];
    let y = moved(v, n, 0, n.data_size as int)->Ok_0;
    let at = raw_block_of(f, k) * bs;
    blocks_in_order(f, next);
    content_bounds(f, next, k);
    moved_length(v, n, 0, n.data_size as int);
    above_is_clear(f, next, at, y.len() as int);
    packed_files_spare(first, v, f, next, algo, count, at, y);
    blocks_stay_in_range(first, v, f, next, algo, count);
    assert(f.end_block * bs <= blocks * bs) by (nonlinear_arith)
        requires
            f.end_block <= blocks,
            bs > 0,
    ;
    laid_stays_apart(s, SUPER_START as int, x, at, y);
    cutting_keeps(laid(s, SUPER_START as int, x), blocks * bs, at, y);
}

/// A compressed file that is there reads back as its content.
proof fn packed_content_reads_back(
    sb: Superblock,
    d: Seq<u8>,
    v: Volume,
    f: Fresh,
    tree: NodeView,
    next: int,
    algo: Algo,
    k: int,
    block: int,
)
    requires
        described(sb, d, f, tree, next),
        settled_plan(f, next),
        sb.wf(),
        sb.block_size == f.block_size,
        sb.block_size <= MAX_PACKED_BLOCK,
        f.block_size % 32 == 0,
        sb.feature_incompat % 2 == 0,
        sized(v),
        all_counted(f),
        all_faithful(v, f, algo, f.list.len() as int),
        0 <= k < f.list.len(),
        is_packed_file(f.list[k]),
        0 < block,
        block + packed_length(v, f, f.list[k], algo) <= u32::MAX,
        packed_there(d, v, f, f.list[k], algo, block),
    ensures
        file_there(sb, d, v, f.list[k]),
{
    let n = f.list[k];
    let fi = inode_reads_back(sb, d, f, tree, next, k);
    inode_is_there(sb, d, f, tree, next, k);
    assert(map_place(f, n) % 8 == 0 && 0 < n.data_size <= u32::MAX) by {
        map_bounds(f, next, k);
    }
    assert(map_place(f, n) <= inode_place(f, n.nid) + 80) by {
        map_bounds(f, next, k);
        inode_bounds(f, next, k);
    }
    assert(inode_place(f, n.nid) + 0x1000_0000 <= u64::MAX);
    file_is_faithful(v, f, algo, k);
    header_fields(d, map_place(f, n), algo);
    compressed_files_read_back(sb, d, fi, v, n, algo, block);
    compressed_files_are_served(sb, d, fi, v, n, algo, block, bare_node(sb, d, n.nid));
}

proof fn header_fields(d: Seq<u8>, map: int, algo: Algo)
    requires
        holds(d, map, header_of(algo)),
    ensures
        le16(d, map + 4) == 0,
        d[map + 6] == algo.id(),
        d[map + 7] == 0,
{
    let header = header_of(algo);
    le_in_window(d, map, header, 4);
    assert(le16(header, 4) == 0);
    assert(d.subrange(map, map + 8)[6] == header[6]);
    assert(d.subrange(map, map + 8)[7] == header[7]);
}

/// A tree that is written as an EROFS image with compressed files reads back:
/// the image has a superblock, and the tree that it leads to has the names,
/// modes, owners, labels, sizes and contents that were written. Writing packs
/// faithfully, as the functions that write say. Blocks are so large, or the
/// inodes so far behind, that nothing comes to stand on the superblock.
pub proof fn packed_images_read_back(
    v: Volume,
    root: NodeView,
    bits: nat,
    meta_block: int,
    algo: Algo,
    compat: u32,
    build_time: u64,
    volume: Seq<u8>,
    ro_compat: u32,
    sb: Superblock,
    name: Seq<char>,
)
    requires
        9 <= bits <= 16,
        0 <= meta_block <= u32::MAX,
        pow2(bits) >= 2048 || meta_block * pow2(bits) >= 1024,
        volume.len() == 16,
        sized(v),
        root.is_dir(),
        readable(prepared(root, pow2(bits) as int, indexable(pow2(bits) as int)), 0),
        contexts_fit(
            prepared(root, pow2(bits) as int, indexable(pow2(bits) as int)),
            pow2(bits) as int,
            meta_block,
        ),
        packs_faithfully(v, root, pow2(bits) as int, meta_block, algo),
        packed_image(
            v,
            root,
            pow2(bits) as int,
            meta_block,
            algo,
            compat,
            build_time,
            volume,
            ro_compat,
        ) is Ok,
    ensures
        ({
            let d = packed_image(
                v,
                root,
                pow2(bits) as int,
                meta_block,
                algo,
                compat,
                build_time,
                volume,
                ro_compat,
            )->Ok_0;
            &&& superblock(d) is Ok
            &&& superblock(d) == Ok::<SuperView, Fault>(sb@) ==> {
                &&& sb.block_size == pow2(bits)
                &&& sb.meta_blkaddr == meta_block
                &&& sb.feature_compat == compat
                &&& sb.feature_ro_compat == ro_compat
                &&& sb.build_time == build_time
                &&& sb.volume@ == volume
                &&& tree_of(sb, d, sb.root_nid, name, 0) matches Ok(r) && regained(
                    sb,
                    d,
                    v,
                    r,
                    prepared(root, pow2(bits) as int, indexable(pow2(bits) as int)),
                )
            }
        }),
{
    let bs = pow2(bits) as int;
    small_powers(bits);
    let p = prepared(root, bs, indexable(bs));
    assert(p.is_dir());
    let (tree, f) = fresh_plan(p, bs, meta_block)->Ok_0;
    plans_are_settled(p, bs, meta_block);
    root_number_fits(p, bs, meta_block);
    let next = choose|next: int| #[trigger]
        settled_plan(f, next) && f == placed_tree(tree, next, bs, meta_block);
    blocks_in_order(f, next);
    marked_is_counted(sorted_tree(root), bs);
    throughout_renumbered(tree, p, is_counted(bs));
    assert forall|k: int| 0 <= k < f.list.len() implies is_counted(f.block_size)(
        #[trigger] f.list[k],
    ) by {
        throughout_the_list(tree, is_counted(bs), k);
    }
    let count = f.list.len() as int;
    let base = laid_all(Seq::<u8>::empty(), fresh_writes(f));
    metadata_arrives(Seq::empty(), f, next);
    let plain = with_files(base, v, f, count)->Ok_0;
    files_keep_the_metadata(base, v, f, next, count);
    let first = (plain, f.end_block);
    packed_files_keep_the_metadata(first, v, f, next, algo);
    blocks_stay_in_range(first, v, f, next, algo, count);
    let (s, blocks) = with_packed(first, v, f, algo, count)->Ok_0;
    let x = super_bytes(f, compat, tree.nid, build_time, blocks, volume, ro_compat);
    super_length(f, compat, tree.nid, build_time, blocks, volume, ro_compat);
    let t = laid(s, 1024, x);
    let d = resized(t, blocks * bs);
    assert(f.end_block * bs <= blocks * bs) by (nonlinear_arith)
        requires
            f.end_block <= blocks,
            bs > 0,
    ;
    metadata_stays(s, f, next, 1024, x);
    cutting_keeps_the_metadata(t, f, next, blocks * bs);
    laid_is_there(s, 1024, x);
    cutting_keeps(t, blocks * bs, 1024, x);
    nodes_are_countable(f, next);
    superblocks_read_back(f, bits, compat, tree.nid, build_time, blocks, volume, ro_compat);
    assert(disk_read(d, 1024, 128) == Ok::<Seq<u8>, Fault>(x));
    if superblock(d) == Ok::<SuperView, Fault>(sb@) {
        assert(sb.wf()) by {
            assert(sb.block_size == pow2(bits));
        }
        assert(described(sb, d, f, tree, next)) by {
            reveal(described);
        }
        renumbered_is_readable(tree, p, 0);
        packed_files_are_there(sb, base, plain, s, d, v, f, tree, next, algo, blocks, x);
        assert forall|j: int| 0 <= j < preorder(tree).len() implies f.list.contains(
            #[trigger] preorder(tree)[j],
        ) by {
            assert(f.list[j] == preorder(tree)[j]);
        }
        nodes_are_listed(f.list, tree, p);
        tree_reads(sb, d, v, f, tree, next, tree, name, 0);
        let r = tree_of(sb, d, tree.nid, name, 0)->Ok_0;
        regained_but_for_numbers(sb, d, v, r, tree, p);
    }
}

proof fn small_powers(bits: nat)
    requires
        9 <= bits <= 16,
    ensures
        512 <= pow2(bits) <= 65536,
        pow2(bits) % 32 == 0,
{
    vstd::arithmetic::power2::lemma2_to64();
}

proof fn packed_files_are_there(
    sb: Superblock,
    base: Seq<u8>,
    plain: Seq<u8>,
    s: Seq<u8>,
    d: Seq<u8>,
    v: Volume,
    f: Fresh,
    tree: NodeView,
    next: int,
    algo: Algo,
    blocks: int,
    x: Seq<u8>,
)
    requires
        described(sb, d, f, tree, next),
        settled_plan(f, next),
        f.list == preorder(tree),
        sb.wf(),
        sb.block_size == f.block_size,
        f.block_size % 32 == 0,
        f.block_size >= 2048 || f.meta_block * f.block_size >= 1024,
        sb.feature_incompat % 2 == 0,
        sized(v),
        all_counted(f),
        all_faithful(v, f, algo, f.list.len() as int),
        x.len() == SUPER_END - SUPER_START,
        with_files(base, v, f, f.list.len() as int) == Ok::<Seq<u8>, Fault>(plain),
        with_packed((plain, f.end_block), v, f, algo, f.list.len() as int) == Ok::<
            (Seq<u8>, int),
            Fault,
        >((s, blocks)),
        d == resized(laid(s, SUPER_START as int, x), blocks * f.block_size),
    ensures
        files_there(sb, d, v, f),
{
    reveal(files_there);
    let first = (plain, f.end_block);
    let count = f.list.len() as int;
    assert forall|k: int| 0 <= k < f.list.len() && !(#[trigger] f.list[k]).is_dir() implies file_there(
        sb,
        d,
        v,
        f.list[k],
    ) by {
        let n = f.list[k];
        assert(is_counted(f.block_size)(n));
        if n.data_size == 0 || !n.is_regular() || !indexable(f.block_size) {
            if n.data_size > 0 {
                files_arrive(base, v, f, next, count, k);
                plain_file_stays(first, s, v, f, next, algo, k, x, blocks);
            }
            plain_file_reads_back(sb, d, v, f, tree, next, k);
        } else {
            ceil_div_covers(n.data_size as int, f.block_size);
            assert(n.erofs_compact_clusters > 0) by (nonlinear_arith)
                requires
                    n.erofs_compact_clusters == ceil_div(n.data_size as int, f.block_size),
                    ceil_div(n.data_size as int, f.block_size) * f.block_size >= n.data_size,
                    n.data_size > 0,
                    f.block_size > 0,
            ;
            blocks_in_order(f, next);
            let block = packed_files_land(first, v, f, next, algo, count, k);
            finishing_keeps_a_file(s, v, f, next, algo, k, block, x, blocks);
            packed_content_reads_back(sb, d, v, f, tree, next, algo, k, block);
        }
    }
}

} // verus!
