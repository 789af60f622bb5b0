//! The index of the clusters of a compressed file: what is written reads back,
//! blocks and all.
use super::fresh_laws::holds;
use super::packed::{entries_count, packs_length};
use super::packed_images::small_block_bits;
use super::packed_laws::{entries_join, pack_words, word_place};
use super::unpack_laws::{
    blocks_in_pack, entries_are_small, entry_reads_back, matches_entries, small_entry, word_bits,
};
use crate::buf::{le16, le32, le_in_window};
use crate::fs::erofs::codec::Algo;
use crate::fs::erofs::compress::{
    bits_of, cluster_size, entries_from, entry_at, index_of, packing, CompactEntry, Packing,
    CLUSTER_TYPE_HEAD1, CLUSTER_TYPE_NONHEAD,
};
use crate::fs::erofs::encode::{
    block_total, cluster_entries, encoded_index, entries_of, entry_blocks, entry_word, fillers,
    pack_anchor, pack_bytes, packed_from, packed_one, packed_pair, packs_bytes, restores,
    value_bits, PclusterView, MAX_PACKED_BLOCK,
};
use crate::fs::erofs::inode::Inode;
use crate::fs::erofs::Superblock;
use crate::math::{ceil_div, ceil_div_covers, least};
use vstd::prelude::*;

verus! {

// ---------------------------------------------------------------------
// Blocks
// ---------------------------------------------------------------------
/// The blocks of two runs of clusters, one behind the other.
proof fn blocks_join(a: Seq<PclusterView>, b: Seq<PclusterView>, first: int)
    ensures
        block_total(a + b) == block_total(a) + block_total(b),
        entry_blocks(a + b, first) == entry_blocks(a, first) + entry_blocks(
            b,
            first + block_total(a),
        ),
    decreases b.len(),
{
    if b.len() == 0 {
        assert(a + b =~= a);
        assert(entry_blocks(a, first) + entry_blocks(b, first + block_total(a)) =~= entry_blocks(
            a,
            first,
        ));
    } else {
        blocks_join(a, b.drop_last(), first);
        assert((a + b).drop_last() =~= a + b.drop_last());
        assert((a + b).last() == b.last());
        assert(entry_blocks(a + b, first) =~= entry_blocks(a, first) + entry_blocks(
            b,
            first + block_total(a),
        ));
    }
}

/// The index of clusters comes in packs of two: the first entry of a pack
/// starts a cluster, and where the second one does, its block is the next one.
#[verifier::opaque]
spec fn paired(e: Seq<(u8, u16)>, blocks: Seq<int>, first: int) -> bool {
    &&& e.len() == blocks.len()
    &&& forall|i: int| 0 <= i < blocks.len() ==> first <= #[trigger] blocks[i]
    &&& forall|i: int|
        0 <= i < e.len() && i % 2 == 0 ==> (#[trigger] e[i]).0 != CLUSTER_TYPE_NONHEAD
    &&& forall|i: int|
        0 <= i < e.len() && i % 2 == 1 && (#[trigger] e[i]).0 != CLUSTER_TYPE_NONHEAD ==> blocks[i]
            == blocks[i - 1] + 1
}

proof fn pairs_join(
    e: Seq<(u8, u16)>,
    blocks: Seq<int>,
    first: int,
    e2: Seq<(u8, u16)>,
    blocks2: Seq<int>,
    second: int,
)
    requires
        paired(e, blocks, first),
        paired(e2, blocks2, second),
        e.len() % 2 == 0,
        first <= second,
    ensures
        paired(e + e2, blocks + blocks2, first),
{
    reveal(paired);
    let x = e + e2;
    let y = blocks + blocks2;
    let n = e.len() as int;
    assert forall|i: int| 0 <= i < y.len() implies first <= #[trigger] y[i] by {
        if i < n {
            assert(y[i] == blocks[i]);
        } else {
            assert(y[i] == blocks2[i - n]);
        }
    }
    assert forall|i: int| 0 <= i < x.len() && i % 2 == 0 implies (#[trigger] x[i]).0
        != CLUSTER_TYPE_NONHEAD by {
        if i < n {
            assert(x[i] == e[i]);
        } else {
            assert(x[i] == e2[i - n]);
        }
    }
    assert forall|i: int|
        0 <= i < x.len() && i % 2 == 1 && (#[trigger] x[i]).0
            != CLUSTER_TYPE_NONHEAD implies y[i] == y[i - 1] + 1 by {
        if i < n {
            assert(x[i] == e[i]);
        } else {
            assert(x[i] == e2[i - n]);
        }
    }
}

/// One cluster that stands for itself.
proof fn one_entry(p: PclusterView, first: int)
    requires
        p.n == 1,
    ensures
        entries_of(seq![p]) == cluster_entries(p),
        cluster_entries(p).len() == 1,
        cluster_entries(p)[0].0 != CLUSTER_TYPE_NONHEAD,
        entry_blocks(seq![p], first) == seq![first],
        block_total(seq![p]) == 1,
{
    let s = seq![p];
    assert(s.drop_last() =~= Seq::empty());
    assert(s.last() == p);
    assert(entries_of(s.drop_last()) =~= Seq::empty());
    assert(entry_blocks(s.drop_last(), first) =~= Seq::empty());
    reveal_with_fuel(fillers, 2);
    reveal_with_fuel(block_total, 2);
    assert(entries_of(s) =~= cluster_entries(p));
    assert(entry_blocks(s, first) =~= seq![first]);
}

/// Two clusters that share one block.
proof fn shared_entry(p: PclusterView, first: int)
    requires
        p.n == 2,
        p.head,
    ensures
        entries_of(seq![p]) == seq![(CLUSTER_TYPE_HEAD1, 0u16), (CLUSTER_TYPE_NONHEAD, 1u16)],
        entry_blocks(seq![p], first) == seq![first, first],
        block_total(seq![p]) == 1,
{
    let s = seq![p];
    assert(s.drop_last() =~= Seq::empty());
    assert(s.last() == p);
    assert(entries_of(s.drop_last()) =~= Seq::empty());
    assert(entry_blocks(s.drop_last(), first) =~= Seq::empty());
    reveal_with_fuel(fillers, 3);
    reveal_with_fuel(block_total, 2);
    assert(entries_of(s) =~= seq![(CLUSTER_TYPE_HEAD1, 0u16), (CLUSTER_TYPE_NONHEAD, 1u16)]);
    assert(entry_blocks(s, first) =~= seq![first, first]);
}

/// The index of one group.
proof fn groups_are_paired(algo: Algo, block_size: int, pair: Seq<Seq<u8>>, first: int)
    requires
        1 <= pair.len() <= 2,
    ensures
        ({
            let p = packed_pair(algo, block_size, pair);
            &&& entries_of(p).len() == pair.len()
            &&& paired(entries_of(p), entry_blocks(p, first), first)
            &&& block_total(p) == p.len()
        }),
{
    reveal(paired);
    let p = packed_pair(algo, block_size, pair);
    if p.len() == 1 {
        assert(p =~= seq![p[0]]);
        if pair.len() == 1 {
            one_entry(p[0], first);
        } else {
            shared_entry(p[0], first);
        }
    } else {
        let a = seq![p[0]];
        let b = seq![p[1]];
        assert(p =~= a + b);
        assert(p[0] == packed_one(algo, block_size, pair[0]));
        assert(p[1] == packed_one(algo, block_size, pair[1]));
        one_entry(p[0], first);
        one_entry(p[1], first + 1);
        entries_join(a, b);
        blocks_join(a, b, first);
    }
}

/// The index of clusters from `i` on.
proof fn clusters_are_paired(
    algo: Algo,
    block_size: int,
    clusters: Seq<Seq<u8>>,
    i: int,
    first: int,
)
    requires
        0 <= i,
        i <= clusters.len() + 1,
    ensures
        ({
            let p = packed_from(algo, block_size, clusters, i);
            &&& paired(entries_of(p), entry_blocks(p, first), first)
            &&& block_total(p) == p.len()
        }),
    decreases clusters.len() + 2 - i,
{
    let p = packed_from(algo, block_size, clusters, i);
    if i >= clusters.len() {
        reveal(paired);
        assert(entries_of(p) =~= Seq::empty());
        assert(entry_blocks(p, first) =~= Seq::empty());
    } else {
        let pair = clusters.subrange(i, least(i + 2, clusters.len() as int));
        let a = packed_pair(algo, block_size, pair);
        let b = packed_from(algo, block_size, clusters, i + 2);
        groups_are_paired(algo, block_size, pair, first);
        entries_join(a, b);
        blocks_join(a, b, first);
        if pair.len() == 2 {
            clusters_are_paired(algo, block_size, clusters, i + 2, first + block_total(a));
            pairs_join(
                entries_of(a),
                entry_blocks(a, first),
                first,
                entries_of(b),
                entry_blocks(b, first + block_total(a)),
                first + block_total(a),
            );
        } else {
            assert(b =~= Seq::empty());
            assert(p =~= a);
        }
    }
}

// ---------------------------------------------------------------------
// Words
// ---------------------------------------------------------------------
/// A pack of an index stands in its place.
proof fn packs_stand(
    entries: Seq<(u8, u16)>,
    blocks: Seq<int>,
    first: int,
    n: int,
    k: int,
    low: u32,
)
    requires
        0 <= k < n,
    ensures
        packs_bytes(entries, blocks, first, n, low).len() == 8 * n,
        packs_bytes(entries, blocks, first, n, low).subrange(8 * k, 8 * k + 8) == pack_bytes(
            entries,
            blocks,
            first,
            k,
            low,
        ),
    decreases n,
{
    let whole = packs_bytes(entries, blocks, first, n, low);
    let front = packs_bytes(entries, blocks, first, n - 1, low);
    packs_length(entries, blocks, first, n, low);
    packs_length(entries, blocks, first, n - 1, low);
    if k == n - 1 {
        assert(whole.subrange(8 * k, 8 * k + 8) =~= pack_bytes(entries, blocks, first, k, low));
    } else {
        packs_stand(entries, blocks, first, n - 1, k, low);
        assert(whole.subrange(8 * k, 8 * k + 8) =~= front.subrange(8 * k, 8 * k + 8));
    }
}

/// The word of an entry in an image, and the anchor of its pack.
proof fn words_stand(
    d: Seq<u8>,
    base: int,
    entries: Seq<(u8, u16)>,
    blocks: Seq<int>,
    first: int,
    i: int,
    low: u32,
)
    requires
        0 <= base,
        0 <= i < entries.len(),
        holds(d, base, packs_bytes(entries, blocks, first, ceil_div(entries.len() as int, 2), low)),
    ensures
        le16(d, base + word_place(i)) == entry_word(entries[i], low),
        le32(d, base + i / 2 * 8 + 4) == pack_anchor(blocks, first, i / 2),
        base + i / 2 * 8 + 8 <= d.len(),
{
    let n = ceil_div(entries.len() as int, 2);
    ceil_div_covers(entries.len() as int, 2);
    let k = i / 2;
    let x = packs_bytes(entries, blocks, first, n, low);
    let y = pack_bytes(entries, blocks, first, k, low);
    packs_stand(entries, blocks, first, n, k, low);
    pack_words(entries, blocks, first, k, low);
    assert(d.subrange(base + 8 * k, base + 8 * k + 8) =~= y) by {
        assert forall|j: int| 0 <= j < 8 implies d[base + 8 * k + j] == #[trigger] y[j] by {
            assert(x.subrange(8 * k, 8 * k + 8)[j] == y[j]);
            assert(d.subrange(base, base + x.len())[8 * k + j] == x[8 * k + j]);
        }
    }
    le_in_window(d, base + 8 * k, y, i % 2 * 2);
    le_in_window(d, base + 8 * k, y, 4);
}

// ---------------------------------------------------------------------
// Entries
// ---------------------------------------------------------------------
/// Every entry that starts a cluster names its block.
spec fn names_blocks(entries: Seq<CompactEntry>, blocks: Seq<int>) -> bool {
    forall|i: int|
        0 <= i < entries.len() && (#[trigger] entries[i]).kind != CLUSTER_TYPE_NONHEAD
            ==> entries[i].pblk == blocks[i]
}

proof fn entries_name_blocks(
    d: Seq<u8>,
    base: int,
    block_bits: int,
    inode: Inode,
    before: Seq<CompactEntry>,
    e: Seq<(u8, u16)>,
    blocks: Seq<int>,
    first: int,
)
    requires
        0 <= base,
        base % 8 == 0,
        d.len() <= u64::MAX,
        9 <= block_bits <= 14,
        inode.cluster_bits == 0,
        inode.advise == 0,
        1 <= first,
        forall|i: int| 0 <= i < e.len() ==> small_entry(#[trigger] e[i]),
        forall|i: int| 0 <= i < blocks.len() ==> #[trigger] blocks[i] <= u32::MAX,
        paired(e, blocks, first),
        holds(d, base, packs_bytes(e, blocks, first, ceil_div(e.len() as int, 2), word_bits(block_bits))),
        matches_entries(before, e),
        names_blocks(before, blocks),
    ensures
        entries_from(
            d,
            (Packing { base, initial: 0, middle: 0 }),
            block_bits,
            inode,
            before,
            e.len() as int,
        ) matches Ok(all) && all.len() == e.len() && matches_entries(all, e) && names_blocks(
            all,
            blocks,
        ),
    decreases e.len() - before.len(),
{
    if before.len() < e.len() {
        let lcn = before.len() as int;
        let p = Packing { base, initial: 0, middle: 0 };
        words_stand(d, base, e, blocks, first, lcn, word_bits(block_bits));
        entry_reads_back(d, base, block_bits, inode, before, lcn, e[lcn]);
        let x = entry_at(d, p, block_bits, inode, before, lcn)->Ok_0;
        entry_names_its_block(before, e, blocks, first, lcn, x, le32(d, base + lcn / 2 * 8 + 4));
        let next = before.push(x);
        assert forall|i: int| 0 <= i < next.len() implies (#[trigger] next[i]).lcn == i
            && next[i].kind == e[i].0 && next[i].value == e[i].1 by {
            if i < before.len() {
                assert(next[i] == before[i]);
            }
        }
        assert forall|i: int|
            0 <= i < next.len() && (#[trigger] next[i]).kind
                != CLUSTER_TYPE_NONHEAD implies next[i].pblk == blocks[i] by {
            if i < before.len() {
                assert(next[i] == before[i]);
            }
        }
        entries_name_blocks(d, base, block_bits, inode, next, e, blocks, first);
    }
}

proof fn entry_names_its_block(
    before: Seq<CompactEntry>,
    e: Seq<(u8, u16)>,
    blocks: Seq<int>,
    first: int,
    lcn: int,
    x: CompactEntry,
    anchor: u32,
)
    requires
        1 <= first,
        lcn == before.len(),
        lcn < e.len(),
        paired(e, blocks, first),
        matches_entries(before, e),
        forall|i: int| 0 <= i < blocks.len() ==> #[trigger] blocks[i] <= u32::MAX,
        anchor == pack_anchor(blocks, first, lcn / 2),
        x.kind == e[lcn].0,
        e[lcn].0 != CLUSTER_TYPE_NONHEAD && (lcn % 2 == 1 ==> before[lcn - 1].kind
            != CLUSTER_TYPE_NONHEAD) ==> x.pblk == anchor + blocks_in_pack(before, lcn),
    ensures
        x.kind != CLUSTER_TYPE_NONHEAD ==> x.pblk == blocks[lcn],
{
    reveal(paired);
    let k = lcn / 2;
    let start = blocks[k * 2];
    assert(e[k * 2].0 != CLUSTER_TYPE_NONHEAD);
    assert(first <= start <= u32::MAX);
    assert(anchor == start - 1);
    if lcn % 2 == 1 {
        assert(before[lcn - 1].kind == e[lcn - 1].0);
    }
}

// ---------------------------------------------------------------------
// The index
// ---------------------------------------------------------------------
/// The first entry of each cluster names the block at its own position.
proof fn blocks_by_position(p: Seq<PclusterView>, first: int, k: int)
    requires
        0 <= k < p.len(),
        forall|i: int| 0 <= i < p.len() ==> 1 <= (#[trigger] p[i]).n && (!p[i].head ==> p[i].n == 1),
    ensures
        entry_blocks(p, first).len() > entry_blocks(p.take(k), first).len(),
        entry_blocks(p, first)[entry_blocks(p.take(k), first).len() as int] == first + k,
{
    let a = p.take(k);
    let b = p.skip(k);
    assert(p =~= a + b);
    spans_count(a);
    blocks_join(a, b, first);
    assert(b[0] == p[k]);
    first_block(b, first + k);
}

proof fn spans_count(p: Seq<PclusterView>)
    requires
        forall|i: int| 0 <= i < p.len() ==> 1 <= (#[trigger] p[i]).n && (!p[i].head ==> p[i].n == 1),
    ensures
        block_total(p) == p.len(),
    decreases p.len(),
{
    if p.len() > 0 {
        assert(p.last() == p[p.len() - 1]);
        assert forall|i: int| 0 <= i < p.drop_last().len() implies 1 <= (
        #[trigger] p.drop_last()[i]).n && (!p.drop_last()[i].head ==> p.drop_last()[i].n
            == 1) by {
            assert(p.drop_last()[i] == p[i]);
        }
        spans_count(p.drop_last());
    }
}

proof fn first_block(p: Seq<PclusterView>, first: int)
    requires
        p.len() > 0,
        p[0].n >= 1,
    ensures
        entry_blocks(p, first).len() > 0,
        entry_blocks(p, first)[0] == first,
    decreases p.len(),
{
    if p.len() == 1 {
        assert(p.drop_last() =~= Seq::empty());
        assert(block_total(p.drop_last()) == 0);
        assert(entry_blocks(p.drop_last(), first) =~= Seq::empty());
        assert(p.last() == p[0]);
    } else {
        assert(p.drop_last()[0] == p[0]);
        first_block(p.drop_last(), first);
    }
}

proof fn clusters_are_small(algo: Algo, p: Seq<PclusterView>, c: Seq<Seq<u8>>)
    requires
        restores(algo, p, c),
    ensures
        forall|i: int| 0 <= i < p.len() ==> 1 <= (#[trigger] p[i]).n && (!p[i].head ==> p[i].n == 1),
    decreases p.len(),
{
    if p.len() > 0 {
        let rest = p.drop_first();
        clusters_are_small(algo, rest, c.skip(p[0].n as int));
        assert forall|i: int| 0 <= i < p.len() implies 1 <= (#[trigger] p[i]).n && (!p[i].head
            ==> p[i].n == 1) by {
            if i > 0 {
                assert(p[i] == rest[i - 1]);
            }
        }
    }
}

proof fn blocks_are_bounded(p: Seq<PclusterView>, first: int)
    requires
        forall|i: int| 0 <= i < p.len() ==> 1 <= (#[trigger] p[i]).n && (!p[i].head ==> p[i].n == 1),
    ensures
        forall|i: int|
            0 <= i < entry_blocks(p, first).len() ==> first <= #[trigger] entry_blocks(p, first)[i]
                < first + p.len(),
    decreases p.len(),
{
    if p.len() > 0 {
        let q = p.drop_last();
        assert forall|i: int| 0 <= i < q.len() implies 1 <= (#[trigger] q[i]).n && (!q[i].head
            ==> q[i].n == 1) by {
            assert(q[i] == p[i]);
        }
        assert(p.last() == p[p.len() - 1]);
        blocks_are_bounded(q, first);
        spans_count(q);
        let e = entry_blocks(q, first);
        assert forall|i: int| 0 <= i < entry_blocks(p, first).len() implies first
            <= #[trigger] entry_blocks(p, first)[i] < first + p.len() by {
            if i < e.len() {
                assert(entry_blocks(p, first)[i] == e[i]);
            }
        }
    }
}

/// The index of packed clusters reads back: there is an entry for each logical
/// cluster, with the kind and the value that were written, and every entry
/// that starts a physical cluster names the block of it. The blocks follow
/// each other in the order of the physical clusters.
pub proof fn indexes_read_back(
    fs: Superblock,
    d: Seq<u8>,
    inode: Inode,
    algo: Algo,
    clusters: Seq<Seq<u8>>,
    first: int,
)
    requires
        fs.wf(),
        fs.block_size <= MAX_PACKED_BLOCK,
        inode.advise == 0,
        inode.cluster_bits == 0,
        inode.data_offset % 8 == 0,
        clusters.len() == ceil_div(inode.size as int, fs.block_size as int),
        d.len() <= u64::MAX,
        restores(algo, packed_from(algo, fs.block_size as int, clusters, 0), clusters),
        1 <= first,
        first + packed_from(algo, fs.block_size as int, clusters, 0).len() <= 0x1_0000_0000,
        holds(
            d,
            inode.data_offset + 8,
            encoded_index(
                packed_from(algo, fs.block_size as int, clusters, 0),
                first,
                value_bits(fs.block_size as int),
            ),
        ),
    ensures
        ({
            let p = packed_from(algo, fs.block_size as int, clusters, 0);
            &&& index_of(fs, d, inode) matches Ok(e) && {
                &&& e.len() == clusters.len()
                &&& forall|i: int|
                    0 <= i < e.len() ==> (#[trigger] e[i]).lcn == i && (e[i].kind, e[i].value) == (
                        entries_of(p)[i].0,
                        entries_of(p)[i].1 as u32,
                    )
                &&& forall|i: int|
                    0 <= i < e.len() && (#[trigger] e[i]).kind != CLUSTER_TYPE_NONHEAD ==> e[i].pblk
                        == entry_blocks(p, first)[i]
            }
            &&& forall|k: int|
                0 <= k < p.len() ==> entry_blocks(p, first)[entry_blocks(
                    #[trigger] p.take(k),
                    first,
                ).len() as int] == first + k
        }),
{
    let bs = fs.block_size as int;
    let p = packed_from(algo, bs, clusters, 0);
    let e = entries_of(p);
    let blocks = entry_blocks(p, first);
    let base = inode.data_offset + 8;
    let total = clusters.len() as int;
    small_block_bits(fs);
    entries_count(algo, p, clusters);
    entries_are_small(algo, p, clusters);
    clusters_are_small(algo, p, clusters);
    blocks_are_bounded(p, first);
    clusters_are_paired(algo, bs, clusters, 0, first);
    assert(bs * 1 == bs);
    assert(cluster_size(fs, inode) == bs);
    assert(packing(inode, total) == (Packing { base, initial: 0, middle: 0 }));
    entries_name_blocks(d, base, bits_of(fs), inode, Seq::empty(), e, blocks, first);
    assert forall|k: int| 0 <= k < p.len() implies entry_blocks(p, first)[entry_blocks(
        #[trigger] p.take(k),
        first,
    ).len() as int] == first + k by {
        blocks_by_position(p, first, k);
    }
}

} // verus!
