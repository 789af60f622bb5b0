//! What reading a compressed file gives back of what was written.
use super::blocks::{ranges_have_their_length, Volume};
use super::erofs_laws::{field16, field32};
use super::fresh_laws::{holds, laid_is_there, laid_stays_apart};
use super::node::NodeView;
use super::packed::{
    batch_size, blocks_bytes, blocks_bytes_len, cluster_of, clusters_of, entries_count, faithful,
    index_length, packed_takes_blocks, packs_length, with_batch, with_clusters, Stream,
};
use super::read_back::sized;
use super::store::laid;
use crate::buf::{le16, le32, le_in_window, zeros};
use crate::error::Fault;
use crate::fs::erofs::codec::Algo;
use crate::fs::erofs::encode::{
    encoded_index, entries_of, entry_blocks, entry_word, pack_anchor, pack_bytes, packed_from,
    packing_never_grows, packs_bytes, restores, restores_append, value_bits, PclusterView,
};
use crate::math::{ceil_div, ceil_div_covers, greatest, least};
use vstd::prelude::*;

verus! {

// ---------------------------------------------------------------------
// Batches
// ---------------------------------------------------------------------
/// The physical clusters of a file from `lcn` on.
pub open spec fn file_clusters(
    v: Volume,
    n: NodeView,
    algo: Algo,
    block_size: int,
    size: int,
    lcn: int,
) -> Seq<PclusterView>
    decreases greatest(ceil_div(size, block_size) - lcn, 0),
{
    let total = ceil_div(size, block_size);
    let hi = least(lcn + batch_size(block_size), total);
    if lcn >= total || hi <= lcn {
        Seq::empty()
    } else {
        match clusters_of(v, n, block_size, size, lcn, hi) {
            Ok(c) => packed_from(algo, block_size, c, 0) + file_clusters(
                v,
                n,
                algo,
                block_size,
                size,
                hi,
            ),
            Err(_) => Seq::empty(),
        }
    }
}

/// The image `d` holds the clusters of a file from `lcn` on and their index.
pub open spec fn landed(
    d: Seq<u8>,
    block: int,
    index: int,
    v: Volume,
    n: NodeView,
    algo: Algo,
    block_size: int,
    size: int,
    lcn: int,
) -> bool
    decreases greatest(ceil_div(size, block_size) - lcn, 0),
{
    let total = ceil_div(size, block_size);
    let hi = least(lcn + batch_size(block_size), total);
    if lcn >= total || hi <= lcn {
        true
    } else {
        match clusters_of(v, n, block_size, size, lcn, hi) {
            Ok(c) => {
                let p = packed_from(algo, block_size, c, 0);
                &&& holds(d, index, encoded_index(p, block, value_bits(block_size)))
                &&& holds(d, block * block_size, blocks_bytes(p, block_size))
                &&& landed(
                    d,
                    block + p.len(),
                    index + encoded_index(p, block, value_bits(block_size)).len(),
                    v,
                    n,
                    algo,
                    block_size,
                    size,
                    hi,
                )
            },
            Err(_) => false,
        }
    }
}

/// What a batch is: clusters that fill whole blocks but for the last, packed
/// into no more blocks, with an index of four bytes each.
proof fn batch_facts(
    v: Volume,
    n: NodeView,
    algo: Algo,
    block_size: int,
    size: int,
    lcn: int,
    block: int,
)
    requires
        sized(v),
        512 <= block_size <= 65536,
        0 <= lcn < ceil_div(size, block_size),
        0 < size,
        lcn % 2 == 0,
        faithful(v, n, algo, block_size, size, lcn),
    ensures
        ({
            let total = ceil_div(size, block_size);
            let hi = least(lcn + batch_size(block_size), total);
            &&& lcn < hi <= total
            &&& hi < total ==> hi % 2 == 0
            &&& clusters_of(v, n, block_size, size, lcn, hi) matches Ok(c) ==> {
                let p = packed_from(algo, block_size, c, 0);
                &&& c.len() == hi - lcn
                &&& restores(algo, p, c)
                &&& 0 < p.len() <= c.len()
                &&& encoded_index(p, block, value_bits(block_size)).len() == ceil_div(hi - lcn, 2) * 8
                &&& blocks_bytes(p, block_size).len() == p.len() * block_size
                &&& forall|k: int|
                    0 <= k < p.len() ==> (#[trigger] p[k]).payload.len() <= block_size
            }
        }),
{
    let total = ceil_div(size, block_size);
    let batch = batch_size(block_size);
    let hi = least(lcn + batch, total);
    assert(524288int / block_size >= 1) by (nonlinear_arith)
        requires
            512 <= block_size <= 65536,
    ;
    match clusters_of(v, n, block_size, size, lcn, hi) {
        Ok(c) => {
            let p = packed_from(algo, block_size, c, 0);
            clusters_have_their_length(v, n, block_size, size, lcn, hi);
            packing_never_grows(algo, block_size, c, 0);
            packed_takes_blocks(algo, p, c);
            index_length(algo, p, block, c, value_bits(block_size));
            blocks_bytes_len(p, block_size);
        },
        Err(_) => {},
    }
}

/// A cluster fills a block, but for the last one of a file.
pub proof fn clusters_have_their_length(
    v: Volume,
    n: NodeView,
    block_size: int,
    size: int,
    from: int,
    to: int,
)
    requires
        sized(v),
        512 <= block_size,
        0 < size,
        0 <= from <= to <= ceil_div(size, block_size),
    ensures
        clusters_of(v, n, block_size, size, from, to) matches Ok(c) ==> {
            &&& c.len() == to - from
            &&& forall|k: int|
                0 <= k < c.len() ==> (#[trigger] c[k]).len() == least(
                    block_size,
                    size - (from + k) * block_size,
                ) && c[k].len() > 0
        },
    decreases to - from,
{
    if from < to {
        clusters_have_their_length(v, n, block_size, size, from, to - 1);
        let lcn = to - 1;
        ceil_div_covers(size, block_size);
        let total = ceil_div(size, block_size);
        assert(0 <= lcn * block_size < size) by (nonlinear_arith)
            requires
                0 <= lcn <= total - 1,
                total * block_size < size + block_size,
                block_size > 0,
        ;
        ranges_have_their_length(
            v,
            n,
            lcn * block_size,
            least(block_size, size - lcn * block_size),
        );
    }
}

/// Writing the clusters of a file touches nothing but its index and the
/// blocks from the next one on.
pub proof fn clusters_spare_the_rest(
    s: Stream,
    v: Volume,
    n: NodeView,
    algo: Algo,
    block_size: int,
    size: int,
    lcn: int,
    at: int,
    y: Seq<u8>,
)
    requires
        sized(v),
        512 <= block_size <= 65536,
        0 <= lcn,
        0 < size,
        lcn % 2 == 0 || lcn >= ceil_div(size, block_size),
        0 <= s.block,
        0 <= s.index,
        faithful(v, n, algo, block_size, size, lcn),
        holds(s.content, at, y),
        at + y.len() <= s.block * block_size,
        at + y.len() <= s.index || s.index + 8 * ceil_div(
            greatest(ceil_div(size, block_size) - lcn, 0),
            2,
        ) <= at,
    ensures
        with_clusters(s, v, n, algo, block_size, size, lcn) matches Ok(t) ==> holds(
            t.content,
            at,
            y,
        ) && t.content.len() >= s.content.len() && t.block >= s.block,
    decreases greatest(ceil_div(size, block_size) - lcn, 0),
{
    let total = ceil_div(size, block_size);
    let hi = least(lcn + batch_size(block_size), total);
    if lcn < total {
        batch_facts(v, n, algo, block_size, size, lcn, s.block);
        match clusters_of(v, n, block_size, size, lcn, hi) {
            Ok(c) => {
                let p = packed_from(algo, block_size, c, 0);
                let index = encoded_index(p, s.block, value_bits(block_size));
                match with_batch(s, algo, block_size, c) {
                    Ok(t) => {
                        halves(total - lcn, hi - lcn);
                        let mid = laid(s.content, s.index, index);
                        laid_stays_apart(s.content, s.index, index, at, y);
                        assert(s.block * block_size >= 0) by (nonlinear_arith)
                            requires
                                s.block >= 0,
                                block_size > 0,
                        ;
                        laid_stays_apart(
                            mid,
                            s.block * block_size,
                            blocks_bytes(p, block_size),
                            at,
                            y,
                        );
                        assert(t.block * block_size >= s.block * block_size) by (nonlinear_arith)
                            requires
                                t.block >= s.block,
                                block_size > 0,
                        ;
                        clusters_spare_the_rest(t, v, n, algo, block_size, size, hi, at, y);
                    },
                    Err(_) => {},
                }
            },
            Err(_) => {},
        }
    }
}

/// Pairs of a whole and of its front, which has whole pairs or is all of it.
proof fn halves(whole: int, front: int)
    requires
        0 <= front <= whole,
        front % 2 == 0 || front == whole,
    ensures
        ceil_div(whole, 2) == ceil_div(front, 2) + ceil_div(whole - front, 2),
        0 <= ceil_div(front, 2) <= ceil_div(whole, 2),
        front % 2 == 0 ==> ceil_div(front, 2) * 2 == front,
{
    ceil_div_covers(whole, 2);
    ceil_div_covers(front, 2);
    ceil_div_covers(whole - front, 2);
}

/// The clusters of a file arrive with their index.
pub proof fn clusters_land(
    s: Stream,
    v: Volume,
    n: NodeView,
    algo: Algo,
    block_size: int,
    size: int,
    lcn: int,
)
    requires
        sized(v),
        512 <= block_size <= 65536,
        0 <= lcn,
        0 < size,
        lcn % 2 == 0 || lcn >= ceil_div(size, block_size),
        0 < s.block,
        0 <= s.index,
        faithful(v, n, algo, block_size, size, lcn),
        s.index + 8 * ceil_div(greatest(ceil_div(size, block_size) - lcn, 0), 2) <= s.block
            * block_size,
    ensures
        with_clusters(s, v, n, algo, block_size, size, lcn) matches Ok(t) ==> {
            &&& landed(t.content, s.block, s.index, v, n, algo, block_size, size, lcn)
            &&& t.block == s.block + file_clusters(v, n, algo, block_size, size, lcn).len()
        },
    decreases greatest(ceil_div(size, block_size) - lcn, 0),
{
    let total = ceil_div(size, block_size);
    let hi = least(lcn + batch_size(block_size), total);
    if lcn < total {
        batch_facts(v, n, algo, block_size, size, lcn, s.block);
        match clusters_of(v, n, block_size, size, lcn, hi) {
            Ok(c) => {
                let p = packed_from(algo, block_size, c, 0);
                let index = encoded_index(p, s.block, value_bits(block_size));
                let blocks = blocks_bytes(p, block_size);
                match with_batch(s, algo, block_size, c) {
                    Ok(t) => {
                        halves(total - lcn, hi - lcn);
                        ceil_div_covers(hi - lcn, 2);
                        let mid = laid(s.content, s.index, index);
                        laid_is_there(s.content, s.index, index);
                        assert(blocks.len() > 0 && s.block * block_size >= 0 && t.block * block_size
                            == s.block * block_size + blocks.len()) by (nonlinear_arith)
                            requires
                                blocks.len() == p.len() * block_size,
                                p.len() > 0,
                                block_size > 0,
                                s.block >= 0,
                                t.block == s.block + p.len(),
                        ;
                        laid_is_there(mid, s.block * block_size, blocks);
                        laid_stays_apart(mid, s.block * block_size, blocks, s.index, index);
                        clusters_spare_the_rest(
                            t,
                            v,
                            n,
                            algo,
                            block_size,
                            size,
                            hi,
                            s.index,
                            index,
                        );
                        clusters_spare_the_rest(
                            t,
                            v,
                            n,
                            algo,
                            block_size,
                            size,
                            hi,
                            s.block * block_size,
                            blocks,
                        );
                        clusters_land(t, v, n, algo, block_size, size, hi);
                    },
                    Err(_) => {},
                }
            },
            Err(_) => {},
        }
    }
}

// ---------------------------------------------------------------------
// The index
// ---------------------------------------------------------------------
/// Where the word of an entry stands in an index.
pub open spec fn word_place(i: int) -> int {
    i / 2 * 8 + i % 2 * 2
}

/// The words of a pack and its anchor.
pub proof fn pack_words(entries: Seq<(u8, u16)>, blocks: Seq<int>, first: int, pack: int, low: u32)
    requires
        0 <= pack,
        pack * 2 < entries.len(),
    ensures
        ({
            let x = pack_bytes(entries, blocks, first, pack, low);
            &&& x.len() == 8
            &&& le16(x, 0) == entry_word(entries[pack * 2], low)
            &&& pack * 2 + 1 < entries.len() ==> le16(x, 2) == entry_word(entries[pack * 2 + 1], low)
            &&& le32(x, 4) == pack_anchor(blocks, first, pack)
        }),
{
    let x = pack_bytes(entries, blocks, first, pack, low);
    field16(x, 0, entry_word(entries[pack * 2], low));
    if pack * 2 + 1 < entries.len() {
        field16(x, 2, entry_word(entries[pack * 2 + 1], low));
    }
    field32(x, 4, pack_anchor(blocks, first, pack));
}

/// The words of an index, and the anchor of its first pack.
proof fn packs_words(
    entries: Seq<(u8, u16)>,
    blocks: Seq<int>,
    first: int,
    n: int,
    i: int,
    low: u32,
)
    requires
        0 <= i < entries.len(),
        i < 2 * n,
        2 * n <= entries.len() + 1,
    ensures
        packs_bytes(entries, blocks, first, n, low).len() == 8 * n,
        le16(packs_bytes(entries, blocks, first, n, low), word_place(i)) == entry_word(entries[i], low),
        le32(packs_bytes(entries, blocks, first, n, low), 4) == pack_anchor(blocks, first, 0),
    decreases n,
{
    let front = packs_bytes(entries, blocks, first, n - 1, low);
    let x = pack_bytes(entries, blocks, first, n - 1, low);
    let whole = packs_bytes(entries, blocks, first, n, low);
    packs_length(entries, blocks, first, n - 1, low);
    pack_words(entries, blocks, first, n - 1, low);
    assert(whole.subrange(front.len() as int, whole.len() as int) =~= x);
    assert(whole.subrange(0, front.len() as int) =~= front);
    if i < 2 * (n - 1) {
        packs_words(entries, blocks, first, n - 1, i, low);
        le_in_window(whole, 0, front, word_place(i));
        le_in_window(whole, 0, front, 4);
    } else {
        assert(i / 2 == n - 1);
        le_in_window(whole, front.len() as int, x, i % 2 * 2);
        if n - 1 == 0 {
            le_in_window(whole, front.len() as int, x, 4);
        } else {
            packs_words(entries, blocks, first, n - 1, 0, low);
            le_in_window(whole, 0, front, 4);
        }
    }
}

/// The entries of two runs of clusters, one behind the other.
pub proof fn entries_join(a: Seq<PclusterView>, b: Seq<PclusterView>)
    ensures
        entries_of(a + b) == entries_of(a) + entries_of(b),
    decreases b.len(),
{
    if b.len() == 0 {
        assert(a + b =~= a);
        assert(entries_of(a) + entries_of(b) =~= entries_of(a));
    } else {
        entries_join(a, b.drop_last());
        assert((a + b).drop_last() =~= a + b.drop_last());
        assert((a + b).last() == b.last());
        assert(entries_of(a + b) =~= entries_of(a) + entries_of(b));
    }
}

proof fn first_entry_block(p: Seq<PclusterView>, first: int)
    requires
        p.len() > 0,
        p[0].n >= 1,
    ensures
        entry_blocks(p, first).len() > 0,
        entry_blocks(p, first)[0] == first,
    decreases p.len(),
{
    if p.len() == 1 {
        assert(p.drop_last() =~= Seq::empty());
        assert(crate::fs::erofs::encode::block_total(p.drop_last()) == 0);
        assert(entry_blocks(p.drop_last(), first) =~= Seq::empty());
        assert(p.last() == p[0]);
    } else {
        assert(p.drop_last()[0] == p[0]);
        first_entry_block(p.drop_last(), first);
    }
}

/// A word of the index of a batch, and the anchor of its first pack.
proof fn batch_word(
    d: Seq<u8>,
    block: int,
    index: int,
    algo: Algo,
    p: Seq<PclusterView>,
    c: Seq<Seq<u8>>,
    i: int,
    low: u32,
)
    requires
        0 <= index,
        restores(algo, p, c),
        holds(d, index, encoded_index(p, block, low)),
        0 <= i < c.len(),
    ensures
        entries_of(p).len() == c.len(),
        le16(d, index + word_place(i)) == entry_word(entries_of(p)[i], low),
        le32(d, index + 4) == pack_anchor(entry_blocks(p, block), block, 0),
        index + i / 2 * 8 + 8 <= d.len(),
{
    let x = encoded_index(p, block, low);
    let e = entries_of(p);
    let blocks = entry_blocks(p, block);
    entries_count(algo, p, c);
    let packs = ceil_div(e.len() as int, 2);
    ceil_div_covers(e.len() as int, 2);
    packs_words(e, blocks, block, packs, i, low);
    le_in_window(d, index, x, word_place(i));
    le_in_window(d, index, x, 4);
}

proof fn file_entries_split(
    v: Volume,
    n: NodeView,
    algo: Algo,
    block_size: int,
    size: int,
    lcn: int,
    hi: int,
    c: Seq<Seq<u8>>,
)
    requires
        lcn < ceil_div(size, block_size),
        hi == least(lcn + batch_size(block_size), ceil_div(size, block_size)),
        lcn < hi,
        clusters_of(v, n, block_size, size, lcn, hi) == Ok::<Seq<Seq<u8>>, Fault>(c),
        restores(algo, packed_from(algo, block_size, c, 0), c),
    ensures
        entries_of(file_clusters(v, n, algo, block_size, size, lcn)) == entries_of(
            packed_from(algo, block_size, c, 0),
        ) + entries_of(file_clusters(v, n, algo, block_size, size, hi)),
        entries_of(packed_from(algo, block_size, c, 0)).len() == c.len(),
        hi >= ceil_div(size, block_size) ==> entries_of(
            file_clusters(v, n, algo, block_size, size, hi),
        ).len() == 0,
{
    let p = packed_from(algo, block_size, c, 0);
    let rest = file_clusters(v, n, algo, block_size, size, hi);
    entries_join(p, rest);
    entries_count(algo, p, c);
    if hi >= ceil_div(size, block_size) {
        assert(rest =~= Seq::empty());
        assert(entries_of(rest).len() == 0);
    }
}

/// The words of the index of a file that landed.
#[verifier::rlimit(80)]
#[verifier::spinoff_prover]
pub proof fn landed_words(
    d: Seq<u8>,
    block: int,
    index: int,
    v: Volume,
    n: NodeView,
    algo: Algo,
    block_size: int,
    size: int,
    lcn: int,
    i: int,
)
    requires
        sized(v),
        512 <= block_size <= 65536,
        0 <= lcn,
        0 < size,
        lcn % 2 == 0 || lcn >= ceil_div(size, block_size),
        0 <= index,
        faithful(v, n, algo, block_size, size, lcn),
        landed(d, block, index, v, n, algo, block_size, size, lcn),
        0 <= i < entries_of(file_clusters(v, n, algo, block_size, size, lcn)).len(),
    ensures
        le16(d, index + word_place(i)) == entry_word(
            entries_of(file_clusters(v, n, algo, block_size, size, lcn))[i],
            value_bits(block_size),
        ),
        index + i / 2 * 8 + 8 <= d.len(),
    decreases greatest(ceil_div(size, block_size) - lcn, 0),
{
    let total = ceil_div(size, block_size);
    let hi = least(lcn + batch_size(block_size), total);
    if lcn >= total {
        assert(entries_of(Seq::<PclusterView>::empty()).len() == 0);
    } else {
        batch_facts(v, n, algo, block_size, size, lcn, block);
        let c = clusters_of(v, n, block_size, size, lcn, hi)->Ok_0;
        let p = packed_from(algo, block_size, c, 0);
        let x = encoded_index(p, block, value_bits(block_size));
        file_entries_split(v, n, algo, block_size, size, lcn, hi, c);
        if i < c.len() {
            batch_word(d, block, index, algo, p, c, i, value_bits(block_size));
        } else {
            let done = hi - lcn;
            halves(total - lcn, done);
            landed_words(
                d,
                block + p.len(),
                index + x.len(),
                v,
                n,
                algo,
                block_size,
                size,
                hi,
                i - done,
            );
            assert(word_place(i) == word_place(i - done) + x.len());
        }
    }
}

/// The anchor of the first pack of a file that landed.
pub proof fn landed_anchor(
    d: Seq<u8>,
    block: int,
    index: int,
    v: Volume,
    n: NodeView,
    algo: Algo,
    block_size: int,
    size: int,
)
    requires
        sized(v),
        512 <= block_size <= 65536,
        0 < size,
        0 <= index,
        0 < block <= u32::MAX,
        faithful(v, n, algo, block_size, size, 0),
        landed(d, block, index, v, n, algo, block_size, size, 0),
    ensures
        le32(d, index + 4) == block - 1,
{
    let total = ceil_div(size, block_size);
    let hi = least(batch_size(block_size), total);
    ceil_div_covers(size, block_size);
    assert(total > 0) by (nonlinear_arith)
        requires
            total * block_size >= size,
            size > 0,
            block_size > 0,
    ;
    batch_facts(v, n, algo, block_size, size, 0, block);
    let c = clusters_of(v, n, block_size, size, 0, hi)->Ok_0;
    let p = packed_from(algo, block_size, c, 0);
    batch_word(d, block, index, algo, p, c, 0, value_bits(block_size));
    first_entry_block(p, block);
}

// ---------------------------------------------------------------------
// The blocks
// ---------------------------------------------------------------------
proof fn block_of_bytes(s: Seq<PclusterView>, block_size: int, j: int)
    requires
        block_size > 0,
        0 <= j < s.len(),
        forall|k: int| 0 <= k < s.len() ==> (#[trigger] s[k]).payload.len() <= block_size,
    ensures
        holds(
            blocks_bytes(s, block_size),
            j * block_size,
            s[j].payload + zeros(block_size - s[j].payload.len()),
        ),
    decreases s.len(),
{
    let t = s.drop_last();
    assert forall|k: int| 0 <= k < t.len() implies (#[trigger] t[k]).payload.len() <= block_size by {
        assert(t[k] == s[k]);
    }
    blocks_bytes_len(t, block_size);
    blocks_bytes_len(s, block_size);
    let whole = blocks_bytes(s, block_size);
    let front = blocks_bytes(t, block_size);
    let y = s[j].payload + zeros(block_size - s[j].payload.len());
    assert(s[j].payload.len() <= block_size);
    assert(0 <= j * block_size && j * block_size + block_size <= s.len() * block_size)
        by (nonlinear_arith)
        requires
            0 <= j < s.len(),
            block_size > 0,
    ;
    if j == s.len() - 1 {
        assert(t.len() * block_size == j * block_size);
        assert(s.last() == s[j]);
        assert(whole.subrange(j * block_size, j * block_size + y.len()) =~= y);
    } else {
        block_of_bytes(t, block_size, j);
        assert(t[j] == s[j]);
        assert(whole.subrange(j * block_size, j * block_size + y.len()) =~= front.subrange(
            j * block_size,
            j * block_size + y.len(),
        ));
    }
}

/// The block of a physical cluster of a batch.
proof fn batch_block(d: Seq<u8>, block: int, p: Seq<PclusterView>, block_size: int, j: int)
    requires
        0 <= block,
        block_size > 0,
        0 <= j < p.len(),
        forall|k: int| 0 <= k < p.len() ==> (#[trigger] p[k]).payload.len() <= block_size,
        holds(d, block * block_size, blocks_bytes(p, block_size)),
    ensures
        holds(
            d,
            (block + j) * block_size,
            p[j].payload + zeros(block_size - p[j].payload.len()),
        ),
{
    block_of_bytes(p, block_size, j);
    let y = p[j].payload + zeros(block_size - p[j].payload.len());
    let at = (block + j) * block_size;
    assert(at == block * block_size + j * block_size && 0 <= j * block_size && 0 <= block
        * block_size) by (nonlinear_arith)
        requires
            at == (block + j) * block_size,
            0 <= j,
            0 <= block,
            block_size > 0,
    ;
    let x = blocks_bytes(p, block_size);
    assert(d.subrange(at, at + y.len()) =~= d.subrange(
        block * block_size,
        block * block_size + x.len(),
    ).subrange(j * block_size, j * block_size + y.len()));
}

/// The block of a physical cluster of a file that landed.
pub proof fn landed_block(
    d: Seq<u8>,
    block: int,
    index: int,
    v: Volume,
    n: NodeView,
    algo: Algo,
    block_size: int,
    size: int,
    lcn: int,
    j: int,
)
    requires
        sized(v),
        512 <= block_size <= 65536,
        0 <= lcn,
        0 < size,
        lcn % 2 == 0 || lcn >= ceil_div(size, block_size),
        0 <= block,
        faithful(v, n, algo, block_size, size, lcn),
        landed(d, block, index, v, n, algo, block_size, size, lcn),
        0 <= j < file_clusters(v, n, algo, block_size, size, lcn).len(),
    ensures
        ({
            let p = file_clusters(v, n, algo, block_size, size, lcn)[j];
            &&& p.payload.len() <= block_size
            &&& holds(
                d,
                (block + j) * block_size,
                p.payload + zeros(block_size - p.payload.len()),
            )
        }),
    decreases greatest(ceil_div(size, block_size) - lcn, 0),
{
    let total = ceil_div(size, block_size);
    let hi = least(lcn + batch_size(block_size), total);
    batch_facts(v, n, algo, block_size, size, lcn, block);
    let c = clusters_of(v, n, block_size, size, lcn, hi)->Ok_0;
    let p = packed_from(algo, block_size, c, 0);
    let all = file_clusters(v, n, algo, block_size, size, lcn);
    if j < p.len() {
        assert(all[j] == p[j]);
        batch_block(d, block, p, block_size, j);
    } else {
        let rest = file_clusters(v, n, algo, block_size, size, hi);
        assert(all[j] == rest[j - p.len()]);
        landed_block(
            d,
            block + p.len(),
            index + encoded_index(p, block, value_bits(block_size)).len(),
            v,
            n,
            algo,
            block_size,
            size,
            hi,
            j - p.len(),
        );
    }
}

proof fn clusters_join(v: Volume, n: NodeView, block_size: int, size: int, from: int, mid: int, to: int)
    requires
        from <= mid <= to,
        clusters_of(v, n, block_size, size, from, mid) is Ok,
        clusters_of(v, n, block_size, size, mid, to) is Ok,
    ensures
        clusters_of(v, n, block_size, size, from, to) == Ok::<Seq<Seq<u8>>, Fault>(
            clusters_of(v, n, block_size, size, from, mid)->Ok_0 + clusters_of(
                v,
                n,
                block_size,
                size,
                mid,
                to,
            )->Ok_0,
        ),
    decreases to - mid,
{
    let a = clusters_of(v, n, block_size, size, from, mid)->Ok_0;
    if mid == to {
        assert(a + Seq::<Seq<u8>>::empty() =~= a);
    } else {
        clusters_join(v, n, block_size, size, from, mid, to - 1);
        let b = clusters_of(v, n, block_size, size, mid, to - 1)->Ok_0;
        let x = cluster_of(v, n, block_size, size, to - 1)->Ok_0;
        assert((a + b).push(x) =~= a + b.push(x));
    }
}

/// The physical clusters of a file that landed hold all its clusters.
pub proof fn landed_restores(
    d: Seq<u8>,
    block: int,
    index: int,
    v: Volume,
    n: NodeView,
    algo: Algo,
    block_size: int,
    size: int,
    lcn: int,
)
    requires
        sized(v),
        512 <= block_size <= 65536,
        0 <= lcn <= ceil_div(size, block_size),
        0 < size,
        lcn % 2 == 0 || lcn >= ceil_div(size, block_size),
        faithful(v, n, algo, block_size, size, lcn),
        landed(d, block, index, v, n, algo, block_size, size, lcn),
    ensures
        clusters_of(v, n, block_size, size, lcn, ceil_div(size, block_size)) matches Ok(c)
            && restores(algo, file_clusters(v, n, algo, block_size, size, lcn), c),
    decreases greatest(ceil_div(size, block_size) - lcn, 0),
{
    let total = ceil_div(size, block_size);
    let hi = least(lcn + batch_size(block_size), total);
    if lcn < total {
        batch_facts(v, n, algo, block_size, size, lcn, block);
        let c = clusters_of(v, n, block_size, size, lcn, hi)->Ok_0;
        let p = packed_from(algo, block_size, c, 0);
        landed_restores(
            d,
            block + p.len(),
            index + encoded_index(p, block, value_bits(block_size)).len(),
            v,
            n,
            algo,
            block_size,
            size,
            hi,
        );
        clusters_join(v, n, block_size, size, lcn, hi, total);
        restores_append(
            algo,
            p,
            file_clusters(v, n, algo, block_size, size, hi),
            c,
            clusters_of(v, n, block_size, size, hi, total)->Ok_0,
        );
    }
}

/// What landed lies inside the image.
pub proof fn landed_extent(
    d: Seq<u8>,
    block: int,
    index: int,
    v: Volume,
    n: NodeView,
    algo: Algo,
    block_size: int,
    size: int,
    lcn: int,
)
    requires
        sized(v),
        512 <= block_size <= 65536,
        0 <= lcn < ceil_div(size, block_size),
        0 < size,
        lcn % 2 == 0,
        faithful(v, n, algo, block_size, size, lcn),
        landed(d, block, index, v, n, algo, block_size, size, lcn),
    ensures
        index + 8 * ceil_div(ceil_div(size, block_size) - lcn, 2) <= d.len(),
        (block + file_clusters(v, n, algo, block_size, size, lcn).len()) * block_size <= d.len(),
    decreases greatest(ceil_div(size, block_size) - lcn, 0),
{
    let total = ceil_div(size, block_size);
    let hi = least(lcn + batch_size(block_size), total);
    batch_facts(v, n, algo, block_size, size, lcn, block);
    let c = clusters_of(v, n, block_size, size, lcn, hi)->Ok_0;
    let p = packed_from(algo, block_size, c, 0);
    halves(total - lcn, hi - lcn);
    let next = block + p.len();
    assert(next * block_size == block * block_size + p.len() * block_size) by (nonlinear_arith)
        requires
            next == block + p.len(),
    ;
    let all = file_clusters(v, n, algo, block_size, size, lcn);
    let rest = file_clusters(v, n, algo, block_size, size, hi);
    assert(block + all.len() == next + rest.len());
    if hi < total {
        landed_extent(
            d,
            next,
            index + encoded_index(p, block, value_bits(block_size)).len(),
            v,
            n,
            algo,
            block_size,
            size,
            hi,
        );
    }
}

/// What landed is there in every image that has the same bytes for its index
/// and its blocks.
pub proof fn landed_stays(
    d: Seq<u8>,
    e: Seq<u8>,
    block: int,
    index: int,
    v: Volume,
    n: NodeView,
    algo: Algo,
    block_size: int,
    size: int,
    lcn: int,
    index_at: int,
    block_at: int,
    index_bytes: Seq<u8>,
    block_bytes: Seq<u8>,
)
    requires
        sized(v),
        512 <= block_size <= 65536,
        0 <= lcn,
        0 < size,
        lcn % 2 == 0 || lcn >= ceil_div(size, block_size),
        faithful(v, n, algo, block_size, size, lcn),
        landed(d, block, index, v, n, algo, block_size, size, lcn),
        holds(d, index_at, index_bytes),
        holds(e, index_at, index_bytes),
        holds(d, block_at, block_bytes),
        holds(e, block_at, block_bytes),
        index_at <= index,
        index + 8 * ceil_div(greatest(ceil_div(size, block_size) - lcn, 0), 2) <= index_at
            + index_bytes.len(),
        block_at <= block * block_size,
        (block + file_clusters(v, n, algo, block_size, size, lcn).len()) * block_size <= block_at
            + block_bytes.len(),
    ensures
        landed(e, block, index, v, n, algo, block_size, size, lcn),
    decreases greatest(ceil_div(size, block_size) - lcn, 0),
{
    let total = ceil_div(size, block_size);
    let hi = least(lcn + batch_size(block_size), total);
    if lcn < total {
        batch_facts(v, n, algo, block_size, size, lcn, block);
        let c = clusters_of(v, n, block_size, size, lcn, hi)->Ok_0;
        let p = packed_from(algo, block_size, c, 0);
        let rest = file_clusters(v, n, algo, block_size, size, hi);
        halves(total - lcn, hi - lcn);
        let x = encoded_index(p, block, value_bits(block_size));
        let y = blocks_bytes(p, block_size);
        let next = block + p.len();
        let end = next + rest.len();
        assert(next * block_size == block * block_size + y.len() && next * block_size <= end
            * block_size) by (nonlinear_arith)
            requires
                next == block + p.len(),
                y.len() == p.len() * block_size,
                end == next + rest.len(),
                block_size > 0,
        ;
        same_window(d, e, index_at, index_bytes, index, x);
        same_window(d, e, block_at, block_bytes, block * block_size, y);
        landed_stays(
            d,
            e,
            next,
            index + x.len(),
            v,
            n,
            algo,
            block_size,
            size,
            hi,
            index_at,
            block_at,
            index_bytes,
            block_bytes,
        );
    }
}

/// What stands inside a window that two images share stands in both.
proof fn same_window(d: Seq<u8>, e: Seq<u8>, at: int, bytes: Seq<u8>, p: int, y: Seq<u8>)
    requires
        holds(d, at, bytes),
        holds(e, at, bytes),
        holds(d, p, y),
        at <= p,
        p + y.len() <= at + bytes.len(),
    ensures
        holds(e, p, y),
{
    assert forall|i: int| 0 <= i < y.len() implies e[p + i] == y[i] by {
        assert(d.subrange(at, at + bytes.len())[p - at + i] == bytes[p - at + i]);
        assert(e.subrange(at, at + bytes.len())[p - at + i] == bytes[p - at + i]);
        assert(d.subrange(p, p + y.len())[i] == y[i]);
    }
    assert(e.subrange(p, p + y.len()) =~= y);
}

/// The blocks of a file have numbers.
pub proof fn clusters_stay_in_range(
    s: Stream,
    v: Volume,
    n: NodeView,
    algo: Algo,
    block_size: int,
    size: int,
    lcn: int,
)
    requires
        s.block <= u32::MAX,
    ensures
        with_clusters(s, v, n, algo, block_size, size, lcn) matches Ok(t) ==> t.block <= u32::MAX,
    decreases greatest(ceil_div(size, block_size) - lcn, 0),
{
    let total = ceil_div(size, block_size);
    let hi = least(lcn + batch_size(block_size), total);
    if lcn < total && lcn < hi {
        match clusters_of(v, n, block_size, size, lcn, hi) {
            Ok(c) => match with_batch(s, algo, block_size, c) {
                Ok(t) => {
                    clusters_stay_in_range(t, v, n, algo, block_size, size, hi);
                },
                Err(_) => {},
            },
            Err(_) => {},
        }
    }
}

} // verus!
