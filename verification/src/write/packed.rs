//! Writing fresh EROFS images with compressed files.
use super::blocks::{clusters_there, served, BlockSource, ErofsBlockSource, Volume};
use super::fresh::{
    area_length, build_area, build_super, fresh_plan, fresh_writes, inode_place, node_area,
    node_size, number_tree, plan_fresh, push_fresh_writes, super_bytes, super_length, Fresh,
    FreshPlan, PLACE_MARGIN,
};
use super::node::{
    inode_body_size, nodes, preorder, ref_views, sort_tree, Node, NodeView,
};
use super::patch::{patch_views, Patch};
use super::rebuild::{
    copy_files, mark_compressed, marked_is_countable, prepared, put_fitting, stored, with_files,
};
use super::source::Source;
use super::store::{laid, laid_all, laid_next, resized, ByteStore};
use crate::buf::{pad_to, push_bytes, zeros};
use crate::error::{fail, told, Error, Fault};
use crate::fs::erofs::codec::Algo;
use crate::fs::erofs::encode::{
    block_total, cluster_entries, count_value_bits, cluster_views, encode_index, encoded_index, entries_of,
    entry_blocks, fillers, header_of, map_header, pack_clusters, packed_from, packing_never_grows,
    packs_bytes, pcl_views, restores, value_bits, Pcluster, PclusterView, MAX_PACKED_BLOCK,
};
use crate::fs::erofs::Superblock;
use crate::image::ByteSource;
use crate::math::{align_up, ceil_div, ceil_div_covers, div_up, greatest, least};
use vstd::prelude::*;

verus! {

/// The number of clusters that are compressed at a time: whole pairs, about
/// half a mebibyte.
pub open spec fn batch_size(block_size: int) -> int {
    2 * least(greatest(524288int / block_size, 1), 64)
}

fn batch_clusters(block_size: u64) -> (n: u64)
    requires
        512 <= block_size <= 65536,
    ensures
        n == batch_size(block_size as int),
        2 <= n <= 128,
        n % 2 == 0,
{
    let pairs = 524288 / block_size;
    if pairs < 1 {
        2
    } else if pairs > 64 {
        128
    } else {
        2 * pairs
    }
}

/// One logical cluster of a file.
pub open spec fn cluster_of(v: Volume, n: NodeView, block_size: int, size: int, lcn: int) -> Result<
    Seq<u8>,
    Fault,
> {
    served(v, n, lcn * block_size, least(block_size, size - lcn * block_size))
}

/// The logical clusters of a file from `from` up to `to`.
pub open spec fn clusters_of(
    v: Volume,
    n: NodeView,
    block_size: int,
    size: int,
    from: int,
    to: int,
) -> Result<Seq<Seq<u8>>, Fault>
    decreases to - from,
{
    if from >= to {
        Ok(Seq::empty())
    } else {
        match clusters_of(v, n, block_size, size, from, to - 1) {
            Err(e) => Err(e),
            Ok(s) => match cluster_of(v, n, block_size, size, to - 1) {
                Err(e) => Err(e),
                Ok(x) => Ok(s.push(x)),
            },
        }
    }
}

proof fn clusters_fail_early(
    v: Volume,
    n: NodeView,
    block_size: int,
    size: int,
    from: int,
    mid: int,
    to: int,
)
    requires
        from <= mid <= to,
        clusters_of(v, n, block_size, size, from, mid) is Err,
    ensures
        clusters_of(v, n, block_size, size, from, to) == clusters_of(
            v,
            n,
            block_size,
            size,
            from,
            mid,
        ),
    decreases to - mid,
{
    if mid < to {
        clusters_fail_early(v, n, block_size, size, from, mid, to - 1);
    }
}

/// The blocks of physical clusters, each filled up with zeros.
pub open spec fn blocks_bytes(s: Seq<PclusterView>, block_size: int) -> Seq<u8>
    decreases s.len(),
{
    if s.len() == 0 {
        Seq::empty()
    } else {
        blocks_bytes(s.drop_last(), block_size) + (s.last().payload + zeros(
            block_size - s.last().payload.len(),
        ))
    }
}

/// An image while the clusters of files are written to it: the next block
/// and where the next part of the index goes.
pub struct Stream {
    pub content: Seq<u8>,
    pub block: int,
    pub index: int,
}

/// The image with a batch of clusters: their part of the index, and their
/// blocks.
pub open spec fn with_batch(s: Stream, algo: Algo, block_size: int, clusters: Seq<Seq<u8>>) -> Result<
    Stream,
    Fault,
> {
    let pcls = packed_from(algo, block_size, clusters, 0);
    let index = encoded_index(pcls, s.block, value_bits(block_size));
    if s.block + pcls.len() > u32::MAX {
        fail("EROFS physical block overflow"@)
    } else {
        Ok(
            Stream {
                content: laid(
                    laid(s.content, s.index, index),
                    s.block * block_size,
                    blocks_bytes(pcls, block_size),
                ),
                block: s.block + pcls.len(),
                index: s.index + index.len(),
            },
        )
    }
}

/// The image with the clusters of a file from `lcn` on.
pub open spec fn with_clusters(
    s: Stream,
    v: Volume,
    n: NodeView,
    algo: Algo,
    block_size: int,
    size: int,
    lcn: int,
) -> Result<Stream, Fault>
    decreases greatest(ceil_div(size, block_size) - lcn, 0),
{
    let total = ceil_div(size, block_size);
    let hi = least(lcn + batch_size(block_size), total);
    if lcn >= total || hi <= lcn {
        Ok(s)
    } else {
        match clusters_of(v, n, block_size, size, lcn, hi) {
            Err(e) => Err(e),
            Ok(clusters) => match with_batch(s, algo, block_size, clusters) {
                Err(e) => Err(e),
                Ok(t) => with_clusters(t, v, n, algo, block_size, size, hi),
            },
        }
    }
}

/// Every batch of clusters of a file from `lcn` on is packed so that it can
/// be restored.
pub open spec fn faithful(
    v: Volume,
    n: NodeView,
    algo: Algo,
    block_size: int,
    size: int,
    lcn: int,
) -> bool
    decreases greatest(ceil_div(size, block_size) - lcn, 0),
{
    let total = ceil_div(size, block_size);
    let hi = least(lcn + batch_size(block_size), total);
    if lcn >= total || hi <= lcn {
        true
    } else {
        clusters_of(v, n, block_size, size, lcn, hi) matches Ok(c) ==> {
            &&& restores(algo, packed_from(algo, block_size, c, 0), c)
            &&& faithful(v, n, algo, block_size, size, hi)
        }
    }
}

fn read_clusters<B: BlockSource>(
    source: &mut B,
    node: &Node,
    block_size: u64,
    size: u64,
    from: u64,
    to: u64,
) -> (r: Result<Vec<Vec<u8>>, Error>)
    requires
        old(source).wf(),
        512 <= block_size <= 65536,
        size <= u32::MAX,
        from <= to <= ceil_div(size as int, block_size as int),
    ensures
        final(source).wf(),
        final(source).volume() == old(source).volume(),
        final(source).unreliable() == old(source).unreliable(),
        match r {
            Ok(c) => {
                &&& clusters_of(
                    old(source).volume(),
                    node@,
                    block_size as int,
                    size as int,
                    from as int,
                    to as int,
                ) == Ok::<Seq<Seq<u8>>, Fault>(cluster_views(c@))
                &&& c@.len() == to - from
                &&& forall|k: int| 0 <= k < c@.len() ==> (#[trigger] c@[k])@.len() <= block_size
            },
            Err(e) => clusters_of(
                old(source).volume(),
                node@,
                block_size as int,
                size as int,
                from as int,
                to as int,
            ) == Err::<Seq<Seq<u8>>, Fault>(e@) || (e is Io && old(source).unreliable()),
        },
{
    let ghost v = source.volume();
    let ghost bs = block_size as int;
    let mut out: Vec<Vec<u8>> = Vec::new();
    let mut lcn = from;
    proof {
        ceil_div_covers(size as int, bs);
    }
    assert(cluster_views(out@) =~= Seq::empty());
    while lcn < to
        invariant
            source.wf(),
            v == source.volume(),
            v == old(source).volume(),
            source.unreliable() == old(source).unreliable(),
            bs == block_size,
            512 <= block_size <= 65536,
            size <= u32::MAX,
            from <= lcn <= to <= ceil_div(size as int, bs),
            0 <= ceil_div(size as int, bs) <= size,
            clusters_of(v, node@, bs, size as int, from as int, lcn as int) == Ok::<
                Seq<Seq<u8>>,
                Fault,
            >(cluster_views(out@)),
            out@.len() == lcn - from,
            forall|k: int| 0 <= k < out@.len() ==> (#[trigger] out@[k])@.len() <= block_size,
        decreases to - lcn,
    {
        proof {
            let t = ceil_div(size as int, bs);
            ceil_div_covers(size as int, bs);
            assert(lcn * bs < size && lcn * bs <= u32::MAX * 65536) by (nonlinear_arith)
                requires
                    lcn <= t - 1,
                    t * bs < size + bs,
                    size <= u32::MAX,
                    512 <= bs <= 65536,
                    0 <= lcn,
            ;
        }
        let at = lcn * block_size;
        let left = size - at;
        let len: usize = if left < block_size {
            left as usize
        } else {
            block_size as usize
        };
        let x = match source.read_node_block(node, at, len) {
            Ok(x) => x,
            Err(e) => {
                proof {
                    if clusters_of(v, node@, bs, size as int, from as int, lcn + 1) is Err {
                        clusters_fail_early(
                            v,
                            node@,
                            bs,
                            size as int,
                            from as int,
                            lcn + 1,
                            to as int,
                        );
                    }
                }
                return Err(e);
            },
        };
        let ghost before = cluster_views(out@);
        out.push(x);
        assert(cluster_views(out@) =~= before.push(x@));
        lcn = lcn + 1;
    }
    Ok(out)
}

/// The physical clusters take a block each.
pub proof fn packed_takes_blocks(algo: Algo, s: Seq<PclusterView>, clusters: Seq<Seq<u8>>)
    requires
        restores(algo, s, clusters),
    ensures
        forall|k: int| 0 <= k < s.len() ==> (#[trigger] s[k]).head || s[k].n == 1,
        s.len() <= clusters.len(),
    decreases s.len(),
{
    if s.len() > 0 {
        packed_takes_blocks(algo, s.drop_first(), clusters.skip(s[0].n as int));
        assert forall|k: int| 0 <= k < s.len() implies (#[trigger] s[k]).head || s[k].n == 1 by {
            if k > 0 {
                assert(s.drop_first()[k - 1] == s[k]);
            }
        }
    }
}

proof fn total_is_count(s: Seq<PclusterView>)
    requires
        forall|k: int| 0 <= k < s.len() ==> (#[trigger] s[k]).head || s[k].n == 1,
    ensures
        block_total(s) == s.len(),
    decreases s.len(),
{
    if s.len() > 0 {
        let t = s.drop_last();
        assert forall|k: int| 0 <= k < t.len() implies (#[trigger] t[k]).head || t[k].n == 1 by {
            assert(t[k] == s[k]);
        }
        total_is_count(t);
        assert(s.last() == s[s.len() - 1]);
    }
}

/// Writes one block: data with zeros behind it.
fn write_padded_block<T: ByteStore>(store: &mut T, at: u64, data: &[u8], block_size: usize) -> (r:
    Result<(), Error>)
    requires
        data@.len() <= block_size <= 65536,
        at + block_size <= u64::MAX,
    ensures
        final(store).failing() == old(store).failing(),
        match r {
            Ok(_) => final(store).content() == laid(
                old(store).content(),
                at as int,
                data@ + zeros(block_size - data@.len()),
            ),
            Err(e) => e is Io && old(store).failing(),
        },
{
    let mut block: Vec<u8> = Vec::new();
    push_bytes(&mut block, data);
    pad_to(&mut block, block_size);
    assert(block@ =~= data@ + zeros(block_size - data@.len()));
    store.put(at, &block)
}

/// Every cluster takes a block.
pub proof fn blocks_bytes_len(s: Seq<PclusterView>, block_size: int)
    requires
        forall|k: int| 0 <= k < s.len() ==> (#[trigger] s[k]).payload.len() <= block_size,
    ensures
        blocks_bytes(s, block_size).len() == s.len() * block_size,
    decreases s.len(),
{
    if s.len() > 0 {
        let t = s.drop_last();
        assert forall|k: int| 0 <= k < t.len() implies (#[trigger] t[k]).payload.len()
            <= block_size by {
            assert(t[k] == s[k]);
        }
        blocks_bytes_len(t, block_size);
        assert(s.last() == s[s.len() - 1]);
        assert(s.len() * block_size == t.len() * block_size + block_size) by (nonlinear_arith)
            requires
                s.len() == t.len() + 1,
        ;
    }
}

fn write_blocks<T: ByteStore>(store: &mut T, pcls: &Vec<Pcluster>, block: u64, block_size: u64) -> (r:
    Result<(), Error>)
    requires
        512 <= block_size <= 65536,
        block + pcls@.len() <= u32::MAX,
        forall|k: int|
            0 <= k < pcls@.len() ==> (#[trigger] pcl_views(pcls@)[k]).payload.len() <= block_size,
    ensures
        final(store).failing() == old(store).failing(),
        match r {
            Ok(_) => final(store).content() == laid(
                old(store).content(),
                block * block_size,
                blocks_bytes(pcl_views(pcls@), block_size as int),
            ),
            Err(e) => e is Io && old(store).failing(),
        },
{
    let ghost first = store.content();
    let ghost s = pcl_views(pcls@);
    let ghost bs = block_size as int;
    let mut i: usize = 0;
    assert(s.take(0) =~= Seq::empty());
    while i < pcls.len()
        invariant
            i <= pcls@.len(),
            s == pcl_views(pcls@),
            s.len() == pcls@.len(),
            bs == block_size,
            512 <= block_size <= 65536,
            block + pcls@.len() <= u32::MAX,
            forall|k: int| 0 <= k < s.len() ==> (#[trigger] s[k]).payload.len() <= block_size,
            store.failing() == old(store).failing(),
            first == old(store).content(),
            store.content() == laid(first, block * bs, blocks_bytes(s.take(i as int), bs)),
        decreases pcls.len() - i,
    {
        proof {
            let t = s.take(i + 1);
            assert(t.drop_last() =~= s.take(i as int));
            assert(t.last() == s[i as int]);
            assert forall|k: int| 0 <= k < s.take(i as int).len() implies (#[trigger] s.take(
                i as int,
            )[k]).payload.len() <= bs by {
                assert(s.take(i as int)[k] == s[k]);
            }
            blocks_bytes_len(s.take(i as int), bs);
            assert((block + i) * bs == block * bs + i * bs && (block + i) * bs <= 0xffff_ffff
                * 65536) by (nonlinear_arith)
                requires
                    0 <= block + i <= 0xffff_ffff,
                    bs <= 65536,
                    0 <= bs,
            ;
        }
        let at = (block + i as u64) * block_size;
        match write_padded_block(store, at, &pcls[i].payload, block_size as usize) {
            Ok(_) => {},
            Err(e) => {
                return Err(e);
            },
        }
        proof {
            laid_next(
                first,
                block * bs,
                blocks_bytes(s.take(i as int), bs),
                s[i as int].payload + zeros(bs - s[i as int].payload.len()),
            );
        }
        i += 1;
    }
    assert(s.take(i as int) =~= s);
    Ok(())
}

/// The index entries of the first cluster come first.
pub proof fn entries_of_first(p: PclusterView, rest: Seq<PclusterView>)
    ensures
        entries_of(seq![p] + rest) == cluster_entries(p) + entries_of(rest),
    decreases rest.len(),
{
    let s = seq![p] + rest;
    if rest.len() == 0 {
        assert(s.drop_last() =~= Seq::empty());
        assert(entries_of(s.drop_last()) =~= Seq::empty());
        assert(s.last() == p);
        assert(entries_of(s) =~= cluster_entries(p) + entries_of(rest));
    } else {
        entries_of_first(p, rest.drop_last());
        assert(s.drop_last() =~= seq![p] + rest.drop_last());
        assert(s.last() == rest.last());
        assert(entries_of(s) =~= cluster_entries(p) + entries_of(rest));
    }
}

proof fn fillers_count(n: int, k: int)
    ensures
        fillers(n, k).len() == greatest(n - k, 0),
    decreases n - k,
{
    if k < n {
        fillers_count(n, k + 1);
    }
}

/// There is an index entry for each cluster.
pub proof fn entries_count(algo: Algo, s: Seq<PclusterView>, c: Seq<Seq<u8>>)
    requires
        restores(algo, s, c),
    ensures
        entries_of(s).len() == c.len(),
    decreases s.len(),
{
    if s.len() > 0 {
        let p = s[0];
        assert(s =~= seq![p] + s.drop_first());
        entries_of_first(p, s.drop_first());
        entries_count(algo, s.drop_first(), c.skip(p.n as int));
        fillers_count(p.n as int, 1);
    }
}

/// Packs take eight bytes each.
pub proof fn packs_length(entries: Seq<(u8, u16)>, blocks: Seq<int>, first: int, n: int, low: u32)
    requires
        0 <= n,
    ensures
        packs_bytes(entries, blocks, first, n, low).len() == 8 * n,
    decreases n,
{
    if n > 0 {
        packs_length(entries, blocks, first, n - 1, low);
    }
}

/// The index of clusters takes eight bytes for each two of them.
pub proof fn index_length(
    algo: Algo,
    s: Seq<PclusterView>,
    first: int,
    c: Seq<Seq<u8>>,
    low: u32,
)
    requires
        restores(algo, s, c),
    ensures
        encoded_index(s, first, low).len() == ceil_div(c.len() as int, 2) * 8,
{
    entries_count(algo, s, c);
    packs_length(entries_of(s), entry_blocks(s, first), first, ceil_div(c.len() as int, 2), low);
}

/// Writes the content of a file in compressed clusters, and their index.
/// The result is the next block.
pub fn stream_compressed_file<B: BlockSource, T: ByteStore>(
    source: &mut B,
    node: &Node,
    size: u64,
    block_size: u64,
    algo: Algo,
    block: u64,
    index: u64,
    store: &mut T,
) -> (r: Result<u64, Error>)
    requires
        old(source).wf(),
        512 <= block_size <= 65536,
        size <= u32::MAX,
        block <= u32::MAX,
        index + 0x800_0000 <= u64::MAX,
    ensures
        final(source).wf(),
        final(source).volume() == old(source).volume(),
        final(source).unreliable() == old(source).unreliable(),
        final(store).failing() == old(store).failing(),
        r is Ok ==> faithful(
            old(source).volume(),
            node@,
            algo,
            block_size as int,
            size as int,
            0,
        ),
        match r {
            Ok(next) => match with_clusters(
                (Stream { content: old(store).content(), block: block as int, index: index as int }),
                old(source).volume(),
                node@,
                algo,
                block_size as int,
                size as int,
                0,
            ) {
                Ok(t) => t.content == final(store).content() && t.block == next && next <= u32::MAX,
                Err(_) => false,
            },
            Err(e) => with_clusters(
                (Stream { content: old(store).content(), block: block as int, index: index as int }),
                old(source).volume(),
                node@,
                algo,
                block_size as int,
                size as int,
                0,
            ) == Err::<Stream, Fault>(e@) || (e is Io && (old(source).unreliable() || old(
                store,
            ).failing())),
        },
{
    let ghost v = source.volume();
    let ghost bs = block_size as int;
    let ghost first = Stream {
        content: store.content(),
        block: block as int,
        index: index as int,
    };
    let ghost whole = with_clusters(first, v, node@, algo, bs, size as int, 0);
    let total = div_up(size, block_size);
    let batch = batch_clusters(block_size);
    proof {
        ceil_div_covers(size as int, bs);
        assert(total <= 0x80_0000) by (nonlinear_arith)
            requires
                total * bs < size + bs,
                size <= u32::MAX,
                bs >= 512,
        ;
    }
    let mut lcn: u64 = 0;
    let mut next = block;
    let mut at = index;
    while lcn < total
        invariant
            source.wf(),
            v == source.volume(),
            v == old(source).volume(),
            source.unreliable() == old(source).unreliable(),
            store.failing() == old(store).failing(),
            bs == block_size,
            512 <= block_size <= 65536,
            size <= u32::MAX,
            total == ceil_div(size as int, bs),
            total <= 0x80_0000,
            batch == batch_size(bs),
            2 <= batch <= 128,
            lcn <= total,
            next <= u32::MAX,
            index + 0x800_0000 <= u64::MAX,
            index <= at <= index + 8 * lcn,
            whole == with_clusters(first, v, node@, algo, bs, size as int, 0),
            first == (Stream {
                content: old(store).content(),
                block: block as int,
                index: index as int,
            }),
            faithful(v, node@, algo, bs, size as int, lcn as int) ==> faithful(
                v,
                node@,
                algo,
                bs,
                size as int,
                0,
            ),
            whole == with_clusters(
                (Stream { content: store.content(), block: next as int, index: at as int }),
                v,
                node@,
                algo,
                bs,
                size as int,
                lcn as int,
            ),
        decreases total - lcn,
    {
        let hi = if total - lcn < batch {
            total
        } else {
            lcn + batch
        };
        let clusters = match read_clusters(source, node, block_size, size, lcn, hi) {
            Ok(c) => c,
            Err(e) => {
                return Err(e);
            },
        };
        let ghost c = cluster_views(clusters@);
        let pcls = pack_clusters(algo, block_size as usize, &clusters);
        let ghost s = pcl_views(pcls@);
        proof {
            assert forall|k: int| 0 <= k < c.len() implies (#[trigger] c[k]).len() <= bs by {
                assert(c[k] == clusters@[k]@);
            }
            packing_never_grows(algo, bs, c, 0);
            packed_takes_blocks(algo, s, c);
            total_is_count(s);
            index_length(algo, s, next as int, c, value_bits(bs));
        }
        if next + pcls.len() as u64 > u32::MAX as u64 {
            return Err(Error::invalid("EROFS physical block overflow"));
        }
        let (bytes, _count) = encode_index(&pcls, next, count_value_bits(block_size));
        match store.put(at, &bytes) {
            Ok(_) => {},
            Err(e) => {
                return Err(e);
            },
        }
        match write_blocks(store, &pcls, next, block_size) {
            Ok(_) => {},
            Err(e) => {
                return Err(e);
            },
        }
        at = at + bytes.len() as u64;
        next = next + pcls.len() as u64;
        lcn = hi;
    }
    Ok(next)
}

// ---------------------------------------------------------------------
// Images
// ---------------------------------------------------------------------
/// Where the map of a compressed file is: behind its inode and extended
/// attributes.
pub open spec fn map_place(f: Fresh, n: NodeView) -> int {
    align_up(inode_place(f, n.nid) + n.body() + node_area(f, n).len(), 8)
}

/// Whether a node is stored in compressed clusters.
pub open spec fn is_packed_file(n: NodeView) -> bool {
    !n.is_dir() && n.erofs_compact_clusters > 0
}

/// The image with a compressed file.
pub open spec fn with_packed_file(s: (Seq<u8>, int), v: Volume, f: Fresh, n: NodeView, algo: Algo) -> Result<
    (Seq<u8>, int),
    Fault,
> {
    match with_clusters(
        (Stream {
            content: laid(s.0, map_place(f, n), header_of(algo)),
            block: s.1,
            index: map_place(f, n) + 8,
        }),
        v,
        n,
        algo,
        f.block_size,
        n.data_size as int,
        0,
    ) {
        Err(e) => Err(e),
        Ok(t) => Ok((t.content, t.block)),
    }
}

/// The image with the compressed files among the first `k` nodes, and the
/// next block.
pub open spec fn with_packed(s: (Seq<u8>, int), v: Volume, f: Fresh, algo: Algo, k: int) -> Result<
    (Seq<u8>, int),
    Fault,
>
    decreases k,
{
    if k <= 0 {
        Ok(s)
    } else {
        match with_packed(s, v, f, algo, k - 1) {
            Err(e) => Err(e),
            Ok(t) => if is_packed_file(f.list[k - 1]) {
                with_packed_file(t, v, f, f.list[k - 1], algo)
            } else {
                Ok(t)
            },
        }
    }
}

proof fn packed_fail_early(s: (Seq<u8>, int), v: Volume, f: Fresh, algo: Algo, i: int, k: int)
    requires
        i <= k,
        with_packed(s, v, f, algo, i) is Err,
    ensures
        with_packed(s, v, f, algo, k) == with_packed(s, v, f, algo, i),
    decreases k,
{
    if i < k {
        if k > 0 {
            packed_fail_early(s, v, f, algo, i, k - 1);
        }
    }
}

/// Finds where the map of a compressed file is.
fn find_map(p: &FreshPlan, node: &Node) -> (place: u64)
    requires
        p.block_size <= 65536,
        p.meta_block <= u32::MAX,
        p.wf(),
        inode_place(p@, node@.nid) + PLACE_MARGIN <= u64::MAX,
    ensures
        place == map_place(p@, node@),
        place + 0x900_0000 <= u64::MAX,
{
    assert(p.meta_block * p.block_size <= 0xffff_ffff * 65536) by (nonlinear_arith)
        requires
            p.meta_block <= 0xffff_ffff,
            p.block_size <= 65536,
    ;
    let area = build_area(p, node);
    proof {
        area_length(p@, node@);
    }
    let end = p.meta_block * p.block_size + node.nid * 32 + inode_body_size(node) + area.len() as u64;
    proof {
        ceil_div_covers(end as int, 8);
    }
    div_up(end, 8) * 8
}

/// Writes a compressed file. The result is the next block.
fn write_packed_file<B: BlockSource, T: ByteStore>(
    source: &mut B,
    p: &FreshPlan,
    node: &Node,
    algo: Algo,
    block: u64,
    store: &mut T,
) -> (r: Result<u64, Error>)
    requires
        old(source).wf(),
        p.wf(),
        inode_place(p@, node@.nid) + PLACE_MARGIN <= u64::MAX,
        node.data_size <= u32::MAX,
        block <= u32::MAX,
    ensures
        final(source).wf(),
        final(source).volume() == old(source).volume(),
        final(source).unreliable() == old(source).unreliable(),
        final(store).failing() == old(store).failing(),
        r is Ok ==> faithful(
            old(source).volume(),
            node@,
            algo,
            p.block_size as int,
            node.data_size as int,
            0,
        ),
        match r {
            Ok(next) => next <= u32::MAX && with_packed_file(
                (old(store).content(), block as int),
                old(source).volume(),
                p@,
                node@,
                algo,
            ) == Ok::<(Seq<u8>, int), Fault>((final(store).content(), next as int)),
            Err(e) => with_packed_file(
                (old(store).content(), block as int),
                old(source).volume(),
                p@,
                node@,
                algo,
            ) == Err::<(Seq<u8>, int), Fault>(e@) || (e is Io && (old(source).unreliable() || old(
                store,
            ).failing())),
        },
{
    let place = find_map(p, node);
    let header = map_header(algo);
    match store.put(place, &header) {
        Ok(_) => {},
        Err(e) => {
            return Err(e);
        },
    }
    stream_compressed_file(
        source,
        node,
        node.data_size,
        p.block_size,
        algo,
        block,
        place + 8,
        store,
    )
}

/// The compressed files among the first `k` nodes are packed so that they can
/// be restored.
#[verifier::opaque]
pub open spec fn all_faithful(v: Volume, f: Fresh, algo: Algo, k: int) -> bool {
    forall|i: int|
        0 <= i < k && is_packed_file(#[trigger] f.list[i]) ==> faithful(
            v,
            f.list[i],
            algo,
            f.block_size,
            f.list[i].data_size as int,
            0,
        )
}

proof fn one_more_is_faithful(v: Volume, f: Fresh, algo: Algo, k: int)
    requires
        0 <= k,
        all_faithful(v, f, algo, k),
        is_packed_file(f.list[k]) ==> faithful(
            v,
            f.list[k],
            algo,
            f.block_size,
            f.list[k].data_size as int,
            0,
        ),
    ensures
        all_faithful(v, f, algo, k + 1),
{
    reveal(all_faithful);
}

/// Writes the compressed files. The result is the next block.
#[verifier::rlimit(40)]
fn write_packed_files<B: BlockSource, T: ByteStore>(
    source: &mut B,
    p: &FreshPlan,
    algo: Algo,
    store: &mut T,
) -> (r: Result<u64, Error>)
    requires
        old(source).wf(),
        p.wf(),
    ensures
        final(source).wf(),
        final(source).volume() == old(source).volume(),
        final(source).unreliable() == old(source).unreliable(),
        final(store).failing() == old(store).failing(),
        r is Ok ==> all_faithful(old(source).volume(), p@, algo, p@.list.len() as int),
        match r {
            Ok(next) => next <= u32::MAX && with_packed(
                (old(store).content(), p.end_block as int),
                old(source).volume(),
                p@,
                algo,
                p@.list.len() as int,
            ) == Ok::<(Seq<u8>, int), Fault>((final(store).content(), next as int)),
            Err(e) => with_packed(
                (old(store).content(), p.end_block as int),
                old(source).volume(),
                p@,
                algo,
                p@.list.len() as int,
            ) == Err::<(Seq<u8>, int), Fault>(e@) || (e is Io && (old(source).unreliable() || old(
                store,
            ).failing())),
        },
{
    let ghost f = p@;
    let ghost v = source.volume();
    let ghost first = (store.content(), p.end_block as int);
    let bs = p.block_size;
    let mut next = p.end_block;
    let mut i: usize = 0;
    assert(all_faithful(v, f, algo, 0)) by {
        reveal(all_faithful);
    }
    while i < p.list.len()
        invariant
            source.wf(),
            p.wf(),
            f == p@,
            v == source.volume(),
            v == old(source).volume(),
            source.unreliable() == old(source).unreliable(),
            store.failing() == old(store).failing(),
            first == (old(store).content(), p.end_block as int),
            bs == p.block_size,
            next <= u32::MAX,
            i <= p.list@.len() == f.list.len(),
            all_faithful(v, f, algo, i as int),
            with_packed(first, v, f, algo, i as int) == Ok::<(Seq<u8>, int), Fault>(
                (store.content(), next as int),
            ),
        decreases p.list.len() - i,
    {
        let node = p.list[i];
        assert(f.list[i as int] == node@);
        if !node.is_dir() && node.erofs_compact_clusters > 0 {
            assert(inode_place(f, f.list[i as int].nid) + PLACE_MARGIN <= u64::MAX);
            assert(node_size(f.list[i as int], bs as int) <= u32::MAX);
            match write_packed_file(source, p, node, algo, next, store) {
                Ok(n) => {
                    next = n;
                },
                Err(e) => {
                    proof {
                        if with_packed(first, v, f, algo, i + 1) is Err {
                            packed_fail_early(first, v, f, algo, i + 1, f.list.len() as int);
                        }
                    }
                    return Err(e);
                },
            }
        }
        proof {
            one_more_is_faithful(v, f, algo, i as int);
        }
        i += 1;
    }
    Ok(next)
}

/// Whether files can be compressed with blocks of the given size. With larger
/// ones they are stored as they are.
pub open spec fn indexable(block_size: int) -> bool {
    block_size <= MAX_PACKED_BLOCK
}

/// The image of a tree with compressed files: the metadata, what is stored as
/// it is, the compressed files, and the superblock with the blocks that it came to.
pub open spec fn packed_image(
    v: Volume,
    root: NodeView,
    block_size: int,
    meta_block: int,
    algo: Algo,
    compat: u32,
    build_time: u64,
    volume: Seq<u8>,
    ro_compat: u32,
) -> Result<Seq<u8>, Fault> {
    match fresh_plan(prepared(root, block_size, indexable(block_size)), block_size, meta_block) {
        Err(e) => Err(e),
        Ok((tree, f)) => match with_files(
            laid_all(Seq::empty(), fresh_writes(f)),
            v,
            f,
            f.list.len() as int,
        ) {
            Err(e) => Err(e),
            Ok(plain) => match with_packed((plain, f.end_block), v, f, algo, f.list.len() as int) {
                Err(e) => Err(e),
                Ok((s, blocks)) => Ok(
                    resized(
                        laid(
                            s,
                            1024,
                            super_bytes(f, compat, tree.nid, build_time, blocks, volume, ro_compat),
                        ),
                        blocks * block_size,
                    ),
                ),
            },
        },
    }
}

/// Every compressed file of an image is packed so that it can be restored.
pub open spec fn packs_faithfully(
    v: Volume,
    root: NodeView,
    block_size: int,
    meta_block: int,
    algo: Algo,
) -> bool {
    fresh_plan(prepared(root, block_size, indexable(block_size)), block_size, meta_block) matches Ok((_, f))
        && all_faithful(v, f, algo, f.list.len() as int)
}

/// Writes a tree as an EROFS image with compressed files.
fn write_packed<B: BlockSource, T: ByteStore>(
    source: &mut B,
    root: &mut Node,
    block_size: u64,
    meta_block: u64,
    algo: Algo,
    compat: u32,
    build_time: u64,
    volume: &[u8; 16],
    ro_compat: u32,
    store: &mut T,
) -> (r: Result<(), Error>)
    requires
        old(source).wf(),
        512 <= block_size <= 65536,
        meta_block <= u32::MAX,
    ensures
        final(store).failing() == old(store).failing(),
        r is Ok ==> packs_faithfully(
            old(source).volume(),
            old(root)@,
            block_size as int,
            meta_block as int,
            algo,
        ),
        stored(
            old(source).unreliable() || old(store).failing(),
            r,
            final(store).content(),
            packed_image(
                old(source).volume(),
                old(root)@,
                block_size as int,
                meta_block as int,
                algo,
                compat,
                build_time,
                volume@,
                ro_compat,
            ),
        ),
{
    let bs = block_size;
    sort_tree(root);
    proof {
        marked_is_countable(root@, bs as int, indexable(bs as int));
    }
    mark_compressed(root, bs, bs <= MAX_PACKED_BLOCK);
    assert(root@ == prepared(old(root)@, bs as int, indexable(bs as int)));
    let next = number_tree(root, bs, meta_block)?;
    let p = plan_fresh(root, next, bs, meta_block)?;
    let mut patches: Vec<Patch> = Vec::new();
    push_fresh_writes(&p, &mut patches);
    proof {
        super::fresh::fresh_writes_fit(p@);
        assert(patch_views(patches@) =~= fresh_writes(p@));
    }
    store.set_len(0)?;
    assert(store.content() =~= Seq::empty());
    put_fitting(store, &patches)?;
    copy_files(source, &p, store)?;
    let blocks = write_packed_files(source, &p, algo, store)?;
    let head = build_super(&p, compat, root.nid, build_time, blocks, volume, ro_compat);
    proof {
        super_length(p@, compat, root.nid, build_time, blocks as int, volume@, ro_compat);
        assert(blocks * bs <= 0xffff_ffff * 65536) by (nonlinear_arith)
            requires
                blocks <= 0xffff_ffff,
                bs <= 65536,
        ;
    }
    store.put(1024, &head)?;
    store.set_len(blocks * bs)
}

/// Whether the content of the first `k` nodes can be had cluster by cluster.
pub open spec fn all_clusters_there(
    sb: Superblock,
    d: Seq<u8>,
    s: Seq<NodeView>,
    k: int,
) -> Result<(), Fault>
    decreases k,
{
    if k <= 0 {
        Ok(())
    } else {
        match all_clusters_there(sb, d, s, k - 1) {
            Err(e) => Err(e),
            Ok(_) => clusters_there(sb, d, s[k - 1]),
        }
    }
}

proof fn clusters_miss_early(sb: Superblock, d: Seq<u8>, s: Seq<NodeView>, i: int, k: int)
    requires
        i <= k,
        all_clusters_there(sb, d, s, i) is Err,
    ensures
        all_clusters_there(sb, d, s, k) == all_clusters_there(sb, d, s, i),
    decreases k,
{
    if i < k && k > 0 {
        clusters_miss_early(sb, d, s, i, k - 1);
    }
}

/// Checks that the content of all files of a tree can be had cluster by
/// cluster.
fn check_tree<'a, S: ByteSource>(source: &mut ErofsBlockSource<'a, S>, root: &Node) -> (r: Result<
    (),
    Error,
>)
    requires
        old(source).wf(),
    ensures
        final(source).wf(),
        final(source).origin() == old(source).origin(),
        told(
            old(source).unreliable(),
            r,
            all_clusters_there(
                old(source).origin().sb,
                old(source).origin().reader.disk(),
                preorder(root@),
                preorder(root@).len() as int,
            ),
        ),
{
    let mut list: Vec<&Node> = Vec::new();
    nodes(root, &mut list);
    let ghost s = preorder(root@);
    let ghost sb = source.origin().sb;
    let ghost d = source.origin().reader.disk();
    assert(ref_views(list@) =~= s);
    let mut i: usize = 0;
    while i < list.len()
        invariant
            source.wf(),
            source.origin() == old(source).origin(),
            sb == source.origin().sb,
            d == source.origin().reader.disk(),
            ref_views(list@) == s,
            i <= list@.len() == s.len(),
            all_clusters_there(sb, d, s, i as int) == Ok::<(), Fault>(()),
            s == preorder(root@),
        decreases list.len() - i,
    {
        assert(s[i as int] == list@[i as int]@);
        match source.check_clusters(list[i]) {
            Ok(_) => {},
            Err(e) => {
                proof {
                    if all_clusters_there(sb, d, s, i + 1) is Err {
                        clusters_miss_early(sb, d, s, i + 1, s.len() as int);
                    }
                }
                return Err(e);
            },
        }
        i += 1;
    }
    Ok(())
}

/// The image of a changed EROFS tree with compressed files. The content that
/// stays has to be mapped whole.
pub open spec fn repacked_image(
    sb: Superblock,
    d: Seq<u8>,
    root: NodeView,
    algo: Algo,
    build_time: u64,
) -> Result<Seq<u8>, Fault> {
    match all_clusters_there(sb, d, preorder(root), preorder(root).len() as int) {
        Err(e) => Err(e),
        Ok(_) => packed_image(
            Volume::Erofs { sb, d },
            root,
            sb.block_size as int,
            sb.meta_blkaddr as int,
            algo,
            sb.feature_compat & !1u32,
            build_time,
            sb.volume@,
            sb.feature_ro_compat,
        ),
    }
}

/// Rebuilds an EROFS image with compressed files.
pub fn rebuild_compressed<S: ByteSource, T: ByteStore>(
    source: &Source<S>,
    root: &mut Node,
    algo: Algo,
    build_time: u64,
    store: &mut T,
) -> (r: Result<(), Error>)
    requires
        source.wf(),
    ensures
        final(store).failing() == old(store).failing(),
        r is Ok ==> packs_faithfully(
            (Volume::Erofs { sb: source.sb, d: source.reader.disk() }),
            old(root)@,
            source.sb.block_size as int,
            source.sb.meta_blkaddr as int,
            algo,
        ),
        stored(
            source.reader.faulty() || old(store).failing(),
            r,
            final(store).content(),
            repacked_image(source.sb, source.reader.disk(), old(root)@, algo, build_time),
        ),
{
    let mut blocks = ErofsBlockSource::new(source);
    check_tree(&mut blocks, root)?;
    write_packed(
        &mut blocks,
        root,
        source.sb.block_size,
        source.sb.meta_blkaddr,
        algo,
        source.sb.feature_compat & !1u32,
        build_time,
        &source.sb.volume,
        source.sb.feature_ro_compat,
        store,
    )
}

/// Writes a tree as an EROFS image with compressed files, whatever it came
/// from.
pub fn convert_compressed<B: BlockSource, T: ByteStore>(
    source: &mut B,
    root: &mut Node,
    block_size: u64,
    algo: Algo,
    build_time: u64,
    store: &mut T,
) -> (r: Result<(), Error>)
    requires
        old(source).wf(),
        512 <= block_size <= 65536,
    ensures
        final(store).failing() == old(store).failing(),
        r is Ok ==> packs_faithfully(
            old(source).volume(),
            old(root)@,
            block_size as int,
            1,
            algo,
        ),
        stored(
            old(source).unreliable() || old(store).failing(),
            r,
            final(store).content(),
            packed_image(
                old(source).volume(),
                old(root)@,
                block_size as int,
                1,
                algo,
                0,
                build_time,
                zeros(16),
                0,
            ),
        ),
{
    let none: [u8; 16] = [0; 16];
    assert(none@ =~= zeros(16));
    write_packed(source, root, block_size, 1, algo, 0, build_time, &none, 0, store)
}

} // verus!
