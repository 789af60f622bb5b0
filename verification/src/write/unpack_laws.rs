//! Reading the clusters of a compressed file through its index.
use super::fresh_laws::holds;
use super::packed::{entries_count, entries_of_first};
use super::packed_laws::word_place;
use crate::buf::{le16, le32, le_in_window, splice, zeros};
use crate::error::Fault;
use crate::fs::erofs::codec::Algo;
use crate::fs::erofs::compress::{
    blocks_after, blocks_before, entries_from, entry_at, filled_from, low_bits, next_head,
    segment_at, segment_data, slot, CompactEntry, Packing, Segment, CLUSTER_TYPE_HEAD1,
    CLUSTER_TYPE_NONHEAD, CLUSTER_TYPE_PLAIN,
};
use crate::fs::erofs::encode::{
    cluster_entries, entries_of, entry_word, fillers, joined, restores, unpacks_to, PclusterView,
};
use crate::fs::erofs::inode::Inode;
use crate::fs::erofs::Superblock;
use crate::image::disk_read;
use crate::math::least;
use vstd::arithmetic::power2::pow2;
use vstd::prelude::*;

verus! {

// ---------------------------------------------------------------------
// Entries
// ---------------------------------------------------------------------
/// An entry that a word has room for.
pub open spec fn small_entry(e: (u8, u16)) -> bool {
    e.0 < 4 && e.1 < 0x1000
}

proof fn word_of_entry(e: (u8, u16), low: u32)
    requires
        small_entry(e),
        12 <= low <= 14,
    ensures
        entry_word(e, low) == e.0 * pow2(low as nat) + e.1,
        pow2(low as nat) == 0x1000 || pow2(low as nat) == 0x2000 || pow2(low as nat) == 0x4000,
{
    let k = e.0;
    let v = e.1;
    vstd::arithmetic::power2::lemma2_to64();
    assert(((((k as u32) << 12u32) | (v as u32)) as u16) == k * 0x1000 + v) by (bit_vector)
        requires
            k < 4,
            v < 0x1000,
    ;
    assert(((((k as u32) << 13u32) | (v as u32)) as u16) == k * 0x2000 + v) by (bit_vector)
        requires
            k < 4,
            v < 0x1000,
    ;
    assert(((((k as u32) << 14u32) | (v as u32)) as u16) == k * 0x4000 + v) by (bit_vector)
        requires
            k < 4,
            v < 0x1000,
    ;
}

/// The bits of a word that hold its value, with blocks of so many bits.
pub open spec fn word_bits(block_bits: int) -> u32 {
    low_bits(block_bits, 0) as u32
}

/// The entries that were read so far are the first ones of `e`.
pub open spec fn matches_entries(entries: Seq<CompactEntry>, e: Seq<(u8, u16)>) -> bool {
    &&& entries.len() <= e.len()
    &&& forall|i: int|
        0 <= i < entries.len() ==> (#[trigger] entries[i]).lcn == i && entries[i].kind == e[i].0
            && entries[i].value == e[i].1
}

proof fn halves_of_word(d: Seq<u8>, at: int)
    ensures
        le32(d, at) == le16(d, at) + 0x1_0000 * le16(d, at + 2),
{
}

/// The blocks from the anchor of a pack up to the cluster of an entry: the
/// anchor names the block in front of the pack.
pub open spec fn blocks_in_pack(before: Seq<CompactEntry>, lcn: int) -> int {
    if lcn % 2 == 1 && before[lcn - 1].kind != CLUSTER_TYPE_NONHEAD {
        2
    } else {
        1
    }
}

/// One entry of an index, read from its word.
pub proof fn entry_reads_back(
    d: Seq<u8>,
    base: int,
    block_bits: int,
    inode: Inode,
    before: Seq<CompactEntry>,
    lcn: int,
    e: (u8, u16),
)
    requires
        0 <= lcn,
        0 <= base,
        base % 8 == 0,
        base + lcn / 2 * 8 + 8 <= d.len(),
        base + lcn / 2 * 8 + 8 <= u64::MAX,
        9 <= block_bits <= 14,
        inode.cluster_bits == 0,
        inode.advise == 0,
        small_entry(e),
        le16(d, base + word_place(lcn)) == entry_word(e, word_bits(block_bits)),
    ensures
        entry_at(
            d,
            (Packing { base, initial: 0, middle: 0 }),
            block_bits,
            inode,
            before,
            lcn,
        ) matches Ok(x) && x.lcn == lcn && x.kind == e.0 && x.value == e.1 && (e.0
            != CLUSTER_TYPE_NONHEAD && (lcn % 2 == 1 ==> before[lcn - 1].kind
            != CLUSTER_TYPE_NONHEAD) ==> x.pblk == le32(d, base + lcn / 2 * 8 + 4)
            + blocks_in_pack(before, lcn)),
{
    let pack = base + lcn / 2 * 8;
    let index = lcn % 2;
    let at = pack + index * 2;
    entry_position(base, lcn);
    let x = d.subrange(at, at + 4);
    let trailer = d.subrange(pack + 4, pack + 8);
    assert(disk_read(d, at, 4) == Ok::<Seq<u8>, Fault>(x));
    assert(disk_read(d, pack + 4, 4) == Ok::<Seq<u8>, Fault>(trailer));
    le_in_window(d, at, x, 0);
    le_in_window(d, pack + 4, trailer, 0);
    halves_of_word(d, at);
    word_of_entry(e, word_bits(block_bits));
    word_parts(
        le16(d, at) as int,
        le16(d, at + 2) as int,
        e,
        pow2(low_bits(block_bits, 0) as nat) as int,
    );
    entry_of_word(d, base, block_bits, inode, before, lcn, e, x, trailer);
}

/// Where the entry of a logical cluster is in its pack.
proof fn entry_position(base: int, lcn: int)
    requires
        0 <= lcn,
        0 <= base,
        base % 8 == 0,
    ensures
        slot(Packing { base, initial: 0, middle: 0 }, lcn) == (base + lcn * 4, 4int),
        (base + lcn * 4) / 8 * 8 == base + lcn / 2 * 8,
        (base + lcn * 4 - (base + lcn / 2 * 8)) / 4 == lcn % 2,
        lcn % 2 * 16 / 8 == lcn % 2 * 2,
        lcn % 2 * 16 % 8 == 0,
        word_place(lcn) == lcn / 2 * 8 + lcn % 2 * 2,
{
}

proof fn entry_of_word(
    d: Seq<u8>,
    base: int,
    block_bits: int,
    inode: Inode,
    before: Seq<CompactEntry>,
    lcn: int,
    e: (u8, u16),
    x: Seq<u8>,
    trailer: Seq<u8>,
)
    requires
        0 <= lcn <= u64::MAX,
        0 <= base,
        base % 8 == 0,
        9 <= block_bits <= 14,
        inode.cluster_bits == 0,
        inode.advise == 0,
        disk_read(d, base + lcn / 2 * 8 + lcn % 2 * 2, 4) == Ok::<Seq<u8>, Fault>(x),
        disk_read(d, base + lcn / 2 * 8 + 4, 4) == Ok::<Seq<u8>, Fault>(trailer),
        le32(x, 0) as int / pow2(low_bits(block_bits, 0) as nat) as int % 4 == e.0,
        le32(x, 0) as int % pow2(low_bits(block_bits, 0) as nat) as int == e.1,
    ensures
        entry_at(
            d,
            (Packing { base, initial: 0, middle: 0 }),
            block_bits,
            inode,
            before,
            lcn,
        ) matches Ok(y) && y.lcn == lcn && y.kind == e.0 && y.value == e.1 && (e.0
            != CLUSTER_TYPE_NONHEAD && (lcn % 2 == 1 ==> before[lcn - 1].kind
            != CLUSTER_TYPE_NONHEAD) ==> y.pblk == le32(trailer, 0) + blocks_in_pack(before, lcn)),
{
    entry_position(base, lcn);
    let raw = le32(x, 0) as int;
    assert(pow2(0) == 1) by {
        vstd::arithmetic::power2::lemma2_to64();
    }
    vstd::arithmetic::div_mod::lemma_div_basics_2(raw);
    assert(12 <= low_bits(block_bits, 0) <= 14);
    let index = lcn % 2;
    reveal_with_fuel(blocks_before, 2);
    assert(lcn % 2 == 1 ==> before[lcn - 1].kind != CLUSTER_TYPE_NONHEAD ==> blocks_before(
        before,
        lcn - index,
        index,
        1,
        false,
    ) == blocks_in_pack(before, lcn));
    assert(lcn % 2 == 0 ==> blocks_before(before, lcn - index, index, 1, false) == 1);
}

proof fn word_parts(w: int, high: int, e: (u8, u16), q: int)
    requires
        small_entry(e),
        q == 0x1000 || q == 0x2000 || q == 0x4000,
        w == e.0 * q + e.1,
    ensures
        (w + 0x1_0000 * high) / q % 4 == e.0,
        (w + 0x1_0000 * high) % q == e.1,
{
    let k = e.0 as int;
    let v = e.1 as int;
    let r = 0x1_0000int / q;
    let m = k + r * high;
    assert(w + 0x1_0000 * high == v + q * m) by (nonlinear_arith)
        requires
            w == k * q + v,
            m == k + r * high,
            q * r == 0x1_0000,
    ;
    vstd::arithmetic::div_mod::lemma_fundamental_div_mod_converse(w + 0x1_0000 * high, q, m, v);
    let t = r / 4 * high;
    assert(m == k + 4 * t) by (nonlinear_arith)
        requires
            m == k + r * high,
            t == r / 4 * high,
            r == 16 || r == 8 || r == 4,
    ;
    vstd::arithmetic::div_mod::lemma_fundamental_div_mod_converse(m, 4, t, k);
}

/// The entries of an index, read from their words.
pub proof fn entries_read(
    d: Seq<u8>,
    base: int,
    block_bits: int,
    inode: Inode,
    before: Seq<CompactEntry>,
    e: Seq<(u8, u16)>,
)
    requires
        0 <= base,
        base % 8 == 0,
        base + e.len() * 4 + 16 <= u64::MAX,
        9 <= block_bits <= 14,
        inode.cluster_bits == 0,
        inode.advise == 0,
        matches_entries(before, e),
        before.len() > 0 ==> before[0].pblk == le32(d, base + 4) + 1,
        e.len() > 0 ==> e[0].0 != CLUSTER_TYPE_NONHEAD,
        forall|i: int|
            0 <= i < e.len() ==> small_entry(#[trigger] e[i]) && le16(d, base + word_place(i))
                == entry_word(e[i], word_bits(block_bits)) && base + i / 2 * 8 + 8 <= d.len(),
    ensures
        entries_from(
            d,
            (Packing { base, initial: 0, middle: 0 }),
            block_bits,
            inode,
            before,
            e.len() as int,
        ) matches Ok(all) && all.len() == e.len() && matches_entries(all, e) && (all.len() > 0
            ==> all[0].pblk == le32(d, base + 4) + 1),
    decreases e.len() - before.len(),
{
    if before.len() < e.len() {
        let lcn = before.len() as int;
        let p = Packing { base, initial: 0, middle: 0 };
        assert(small_entry(e[lcn]));
        entry_reads_back(d, base, block_bits, inode, before, lcn, e[lcn]);
        let x = entry_at(d, p, block_bits, inode, before, lcn)->Ok_0;
        let next = before.push(x);
        assert(matches_entries(next, e)) by {
            assert forall|i: int| 0 <= i < next.len() implies (#[trigger] next[i]).lcn == i
                && next[i].kind == e[i].0 && next[i].value == e[i].1 by {
                if i < before.len() {
                    assert(next[i] == before[i]);
                }
            }
        }
        entries_read(d, base, block_bits, inode, next, e);
    }
}

/// The entries of clusters fit into their words, and there is one for each
/// logical cluster.
pub proof fn entries_are_small(algo: Algo, p: Seq<PclusterView>, c: Seq<Seq<u8>>)
    requires
        restores(algo, p, c),
    ensures
        entries_of(p).len() == c.len(),
        forall|i: int| 0 <= i < entries_of(p).len() ==> small_entry(#[trigger] entries_of(p)[i]),
        p.len() > 0 ==> entries_of(p).len() > 0 && entries_of(p)[0].0 != CLUSTER_TYPE_NONHEAD,
        c.len() > 0 ==> p.len() > 0,
    decreases p.len(),
{
    entries_count(algo, p, c);
    if p.len() > 0 {
        let rest = p.drop_first();
        entries_are_small(algo, rest, c.skip(p[0].n as int));
        assert(p =~= seq![p[0]] + rest);
        entries_of_first(p[0], rest);
        let own = cluster_entries(p[0]);
        let e = entries_of(p);
        reveal_with_fuel(fillers, 3);
        assert forall|i: int| 0 <= i < e.len() implies small_entry(#[trigger] e[i]) by {
            if i < own.len() {
                assert(e[i] == own[i]);
            } else {
                assert(e[i] == entries_of(rest)[i - own.len()]);
            }
        }
        assert(e[0] == own[0]);
    }
}

// ---------------------------------------------------------------------
// Segments
// ---------------------------------------------------------------------
/// The bytes of two runs of clusters, one behind the other.
pub proof fn joined_splits(a: Seq<Seq<u8>>, b: Seq<Seq<u8>>)
    ensures
        joined(a + b) == joined(a) + joined(b),
    decreases b.len(),
{
    if b.len() == 0 {
        assert(a + b =~= a);
        assert(joined(a) + joined(b) =~= joined(a));
    } else {
        joined_splits(a, b.drop_last());
        assert((a + b).drop_last() =~= a + b.drop_last());
        assert((a + b).last() == b.last());
        assert(joined(a + b) =~= joined(a) + joined(b));
    }
}

proof fn joined_few(c: Seq<Seq<u8>>)
    ensures
        c.len() == 1 ==> joined(c) == c[0],
        c.len() == 2 ==> joined(c) == c[0] + c[1],
{
    if c.len() == 1 {
        assert(c.drop_last() =~= Seq::empty());
        assert(joined(c.drop_last()) =~= Seq::empty());
        assert(joined(c) =~= c[0]);
    } else if c.len() == 2 {
        let t = c.drop_last();
        assert(t.drop_last() =~= Seq::empty());
        assert(joined(t.drop_last()) =~= Seq::empty());
        assert(joined(t) =~= c[0]);
        assert(joined(c) =~= c[0] + c[1]);
    }
}

/// The segment of a compressed cluster of one or two logical ones.
pub proof fn head_segment(
    entries: Seq<CompactEntry>,
    inode: Inode,
    bs: int,
    i: int,
    n: int,
    cursor: Option<u64>,
    physical: int,
)
    requires
        512 <= bs <= 16384,
        1 <= n <= 2,
        0 <= i,
        i + n <= entries.len(),
        inode.size <= u32::MAX,
        0 <= physical <= u32::MAX,
        i * bs < inode.size,
        match cursor {
            Some(p) => p == physical,
            None => entries[i].pblk == physical,
        },
        entries[i].kind == CLUSTER_TYPE_HEAD1,
        entries[i].lcn == i,
        entries[i].value == 0,
        n == 2 ==> entries[i + 1].kind == CLUSTER_TYPE_NONHEAD && entries[i + 1].value == 1,
        i + n < entries.len() ==> entries[i + n].kind != CLUSTER_TYPE_NONHEAD && entries[i + n].value
            == 0 && entries[i + n].lcn == i + n && (i + n) * bs < inode.size,
        i + n == entries.len() ==> inode.size <= (i + n) * bs,
    ensures
        ({
            let end = least((i + n) * bs, inode.size as int);
            &&& end - i * bs <= 2 * bs
            &&& end > i * bs
            &&& segment_at(entries, inode, bs, i, cursor) == Ok::<
                (Option<Segment>, Option<u64>),
                Fault,
            >(
                (
                    Some(
                        Segment {
                            kind: CLUSTER_TYPE_HEAD1,
                            start: (i * bs) as u64,
                            end: end as u64,
                            physical: physical as u64,
                            compressed_blocks: 1,
                            algorithm: inode.algorithm_type % 16,
                        },
                    ),
                    Some((physical + 1) as u64),
                ),
            )
        }),
{
    assert(i * bs >= 0) by (nonlinear_arith)
        requires
            i >= 0,
            bs > 0,
    ;
    assert((i + n) * bs == i * bs + n * bs && n * bs <= 2 * bs && n * bs >= bs) by (nonlinear_arith)
        requires
            1 <= n <= 2,
            bs > 0,
    ;
    reveal_with_fuel(next_head, 3);
    reveal_with_fuel(blocks_after, 3);
    assert(next_head(entries, i + 1) == i + n);
    assert(blocks_after(entries, i + 1) == 1);
}

/// The segment of a cluster that is stored as it is.
pub proof fn plain_segment(
    entries: Seq<CompactEntry>,
    inode: Inode,
    bs: int,
    i: int,
    cursor: Option<u64>,
    physical: int,
)
    requires
        512 <= bs <= 16384,
        0 <= i < entries.len(),
        inode.size <= u32::MAX,
        0 <= physical <= u32::MAX,
        i * bs < inode.size,
        match cursor {
            Some(p) => p == physical,
            None => entries[i].pblk == physical,
        },
        entries[i].kind == CLUSTER_TYPE_PLAIN,
        entries[i].lcn == i,
        entries[i].value == 0,
        i + 1 < entries.len() ==> entries[i + 1].value == 0 && entries[i + 1].lcn == i + 1 && (i + 1)
            * bs < inode.size,
        i + 1 == entries.len() ==> inode.size <= (i + 1) * bs,
    ensures
        ({
            let end = least((i + 1) * bs, inode.size as int);
            &&& end > i * bs
            &&& segment_at(entries, inode, bs, i, cursor) == Ok::<
                (Option<Segment>, Option<u64>),
                Fault,
            >(
                (
                    Some(
                        Segment {
                            kind: CLUSTER_TYPE_PLAIN,
                            start: (i * bs) as u64,
                            end: end as u64,
                            physical: physical as u64,
                            compressed_blocks: 0,
                            algorithm: 0,
                        },
                    ),
                    Some((physical + 1) as u64),
                ),
            )
        }),
{
    assert(i * bs >= 0) by (nonlinear_arith)
        requires
            i >= 0,
            bs > 0,
    ;
    assert((i + 1) * bs == i * bs + bs) by (nonlinear_arith);
}

/// The clusters of a file as they stand in an image: `p` from block `first`
/// on, restoring `c`, which starts with the logical cluster `i`.
#[verifier::opaque]
pub open spec fn standing(
    fs: Superblock,
    d: Seq<u8>,
    algo: Algo,
    p: Seq<PclusterView>,
    c: Seq<Seq<u8>>,
    first: int,
    size: int,
    i: int,
) -> bool {
    &&& restores(algo, p, c)
    &&& 0 <= first
    &&& first + p.len() <= u32::MAX
    &&& forall|q: int|
        0 <= q < p.len() ==> {
            &&& (#[trigger] p[q]).payload.len() <= fs.block_size
            &&& holds(
                d,
                (first + q) * fs.block_size,
                p[q].payload + zeros(fs.block_size - p[q].payload.len()),
            )
        }
    &&& forall|q: int|
        0 <= q < c.len() ==> (#[trigger] c[q]).len() == least(
            fs.block_size as int,
            size - (i + q) * fs.block_size,
        ) && c[q].len() > 0
}

/// The lengths of what stands in an image.
pub proof fn standing_lengths(
    fs: Superblock,
    d: Seq<u8>,
    algo: Algo,
    p: Seq<PclusterView>,
    c: Seq<Seq<u8>>,
    first: int,
    size: int,
    i: int,
)
    requires
        standing(fs, d, algo, p, c, first, size, i),
    ensures
        restores(algo, p, c),
        0 <= first,
        first + p.len() <= u32::MAX,
        forall|q: int|
            0 <= q < c.len() ==> (#[trigger] c[q]).len() == least(
                fs.block_size as int,
                size - (i + q) * fs.block_size,
            ) && c[q].len() > 0,
{
    reveal(standing);
}

/// What stands behind the first cluster.
pub proof fn standing_rest(
    fs: Superblock,
    d: Seq<u8>,
    algo: Algo,
    p: Seq<PclusterView>,
    c: Seq<Seq<u8>>,
    first: int,
    size: int,
    i: int,
)
    requires
        standing(fs, d, algo, p, c, first, size, i),
        p.len() > 0,
    ensures
        standing(
            fs,
            d,
            algo,
            p.drop_first(),
            c.skip(p[0].n as int),
            first + 1,
            size,
            i + p[0].n,
        ),
{
    reveal(standing);
    let rest = p.drop_first();
    let more = c.skip(p[0].n as int);
    assert forall|q: int| 0 <= q < rest.len() implies {
        &&& (#[trigger] rest[q]).payload.len() <= fs.block_size
        &&& holds(
            d,
            (first + 1 + q) * fs.block_size,
            rest[q].payload + zeros(fs.block_size - rest[q].payload.len()),
        )
    } by {
        assert(rest[q] == p[q + 1]);
        assert(first + 1 + q == first + (q + 1));
    }
    assert forall|q: int| 0 <= q < more.len() implies (#[trigger] more[q]).len() == least(
        fs.block_size as int,
        size - (i + p[0].n + q) * fs.block_size,
    ) && more[q].len() > 0 by {
        assert(more[q] == c[q + p[0].n]);
    }
}

/// The data of the first segment.
pub proof fn first_segment_data(
    fs: Superblock,
    d: Seq<u8>,
    algo: Algo,
    p: Seq<PclusterView>,
    c: Seq<Seq<u8>>,
    first: int,
    size: int,
    i: int,
    s: Segment,
)
    requires
        standing(fs, d, algo, p, c, first, size, i),
        p.len() > 0,
        512 <= fs.block_size <= 16384,
        fs.feature_incompat % 2 == 0,
        s.physical == first,
        s.kind == if p[0].head {
            CLUSTER_TYPE_HEAD1
        } else {
            CLUSTER_TYPE_PLAIN
        },
        s.end - s.start == joined(c.take(p[0].n as int)).len(),
        p[0].head ==> s.compressed_blocks == 1 && s.algorithm == algo.id(),
    ensures
        segment_data(fs, d, s) == Ok::<Seq<u8>, Fault>(joined(c.take(p[0].n as int))),
{
    reveal(standing);
    let bs = fs.block_size as int;
    let y = p[0].payload + zeros(bs - p[0].payload.len());
    let span = joined(c.take(p[0].n as int));
    assert(p[0].payload.len() <= bs);
    assert(first + 0 == first);
    assert(holds(d, first * bs, y));
    assert(first * bs + bs <= u64::MAX) by (nonlinear_arith)
        requires
            0 <= first <= 0xffff_ffff,
            0 < bs <= 16384,
    ;
    if p[0].head {
        assert(fs.block_size * 1 == bs);
        assert(disk_read(d, first * bs, bs) == Ok::<Seq<u8>, Fault>(y));
        assert(unpacks_to(algo, p[0].payload, span));
    } else {
        joined_few(c.take(1));
        assert(span == c[0]);
        assert(span == p[0].payload);
        assert(d.subrange(first * bs, first * bs + span.len()) =~= d.subrange(
            first * bs,
            first * bs + y.len(),
        ).subrange(0, span.len() as int));
        assert(y.subrange(0, span.len() as int) =~= span);
    }
}

/// The entries behind the first `i` are those of `p`.
#[verifier::opaque]
pub open spec fn entries_match(
    entries: Seq<CompactEntry>,
    p: Seq<PclusterView>,
    i: int,
) -> bool {
    let e = entries_of(p);
    &&& entries.len() == i + e.len()
    &&& forall|q: int|
        0 <= q < e.len() ==> (#[trigger] entries[i + q]).lcn == i + q && entries[i + q].kind
            == e[q].0 && entries[i + q].value == e[q].1
}

/// The entries behind those of the first cluster.
pub proof fn entries_match_rest(
    entries: Seq<CompactEntry>,
    algo: Algo,
    p: Seq<PclusterView>,
    c: Seq<Seq<u8>>,
    i: int,
)
    requires
        p.len() > 0,
        restores(algo, p, c),
        entries_match(entries, p, i),
        0 <= i,
    ensures
        entries_match(entries, p.drop_first(), i + p[0].n),
        entries.len() == i + c.len(),
        entries[i].lcn == i,
        entries[i].value == 0,
        entries[i].kind == if p[0].head {
            CLUSTER_TYPE_HEAD1
        } else {
            CLUSTER_TYPE_PLAIN
        },
        p[0].head && p[0].n == 2 ==> entries[i + 1].kind == CLUSTER_TYPE_NONHEAD && entries[i
            + 1].value == 1 && entries[i + 1].lcn == i + 1,
{
    reveal(entries_match);
    let rest = p.drop_first();
    let n = p[0].n as int;
    assert(p =~= seq![p[0]] + rest);
    entries_of_first(p[0], rest);
    entries_count(algo, p, c);
    let own = cluster_entries(p[0]);
    let e = entries_of(p);
    reveal_with_fuel(fillers, 3);
    assert(own.len() == n);
    assert(entries[i + 0].lcn == i);
    assert(e[0] == own[0]);
    if n == 2 {
        assert(e[1] == own[1]);
        assert(entries[i + 1].lcn == i + 1);
    }
    assert forall|q: int| 0 <= q < entries_of(rest).len() implies (#[trigger] entries[i + n
        + q]).lcn == i + n + q && entries[i + n + q].kind == entries_of(rest)[q].0 && entries[i + n
        + q].value == entries_of(rest)[q].1 by {
        assert(e[n + q] == entries_of(rest)[q]);
        assert(entries[i + (n + q)].lcn == i + (n + q));
    }
}

/// Reading the clusters of a file puts them one behind the other.
pub proof fn clusters_fill(
    fs: Superblock,
    d: Seq<u8>,
    algo: Algo,
    entries: Seq<CompactEntry>,
    inode: Inode,
    p: Seq<PclusterView>,
    c: Seq<Seq<u8>>,
    first: int,
    i: int,
    cursor: Option<u64>,
    out: Seq<u8>,
)
    requires
        512 <= fs.block_size <= 16384,
        fs.feature_incompat % 2 == 0,
        inode.size <= u32::MAX,
        inode.algorithm_type == algo.id(),
        standing(fs, d, algo, p, c, first, inode.size as int, i),
        entries_match(entries, p, i),
        0 <= i,
        c.len() > 0 ==> match cursor {
            Some(x) => x == first,
            None => entries[i].pblk == first,
        },
        out.len() == inode.size,
        c.len() > 0 ==> (i + c.len() - 1) * fs.block_size < inode.size <= (i + c.len())
            * fs.block_size,
        c.len() == 0 ==> inode.size <= i * fs.block_size,
    ensures
        filled_from(fs, d, entries, inode, fs.block_size as int, i, cursor, out) == Ok::<
            Seq<u8>,
            Fault,
        >(
            if c.len() == 0 {
                out
            } else {
                out.take(i * fs.block_size) + joined(c)
            },
        ),
        c.len() > 0 ==> joined(c).len() == inode.size - i * fs.block_size,
    decreases p.len(),
{
    let bs = fs.block_size as int;
    let size = inode.size as int;
    standing_lengths(fs, d, algo, p, c, first, size, i);
    if p.len() == 0 {
        assert(c.len() == 0);
        assert(entries.len() == i) by {
            reveal(entries_match);
            entries_count(algo, p, c);
        }
    } else {
        let n = p[0].n as int;
        let rest = p.drop_first();
        let more = c.skip(n);
        let span = joined(c.take(n));
        let next = Some((first + 1) as u64);
        let filled = splice(out, i * bs, span);
        first_cluster_fills(fs, d, algo, entries, inode, p, c, first, i, cursor, out);
        standing_rest(fs, d, algo, p, c, first, size, i);
        entries_match_rest(entries, algo, p, c, i);
        span_length(c, n, bs, size, i);
        rows(i, n, c.len() as int, bs, size);
        clusters_fill(fs, d, algo, entries, inode, rest, more, first + 1, i + n, next, filled);
        fill_joins(out, c, n, i * bs, (i + n) * bs, size);
    }
}

/// What is filled in behind the first clusters stands behind them.
proof fn fill_joins(out: Seq<u8>, c: Seq<Seq<u8>>, n: int, at: int, next: int, size: int)
    requires
        0 <= n <= c.len(),
        0 <= at < size,
        out.len() == size,
        joined(c.take(n)).len() == least(next, size) - at,
        at <= next,
        n < c.len() ==> next < size && joined(c.skip(n)).len() == size - next,
        n == c.len() ==> size <= next,
    ensures
        joined(c).len() == size - at,
        out.take(at) + joined(c) == if n < c.len() {
            splice(out, at, joined(c.take(n))).take(next) + joined(c.skip(n))
        } else {
            splice(out, at, joined(c.take(n)))
        },
{
    let span = joined(c.take(n));
    let more = c.skip(n);
    let filled = splice(out, at, span);
    assert(c =~= c.take(n) + more);
    joined_splits(c.take(n), more);
    if n < c.len() {
        assert(filled.take(next) =~= out.take(at) + span);
        assert(out.take(at) + span + joined(more) =~= out.take(at) + joined(c));
    } else {
        assert(more =~= Seq::empty());
        assert(joined(more) =~= Seq::empty());
        assert(joined(c) =~= span);
        assert(filled =~= out.take(at) + joined(c));
    }
}

/// Reading the first cluster puts it in place.
proof fn first_cluster_fills(
    fs: Superblock,
    d: Seq<u8>,
    algo: Algo,
    entries: Seq<CompactEntry>,
    inode: Inode,
    p: Seq<PclusterView>,
    c: Seq<Seq<u8>>,
    first: int,
    i: int,
    cursor: Option<u64>,
    out: Seq<u8>,
)
    requires
        512 <= fs.block_size <= 16384,
        fs.feature_incompat % 2 == 0,
        inode.size <= u32::MAX,
        inode.algorithm_type == algo.id(),
        standing(fs, d, algo, p, c, first, inode.size as int, i),
        entries_match(entries, p, i),
        0 <= i,
        p.len() > 0,
        match cursor {
            Some(x) => x == first,
            None => entries[i].pblk == first,
        },
        (i + c.len() - 1) * fs.block_size < inode.size <= (i + c.len()) * fs.block_size,
    ensures
        filled_from(fs, d, entries, inode, fs.block_size as int, i, cursor, out) == filled_from(
            fs,
            d,
            entries,
            inode,
            fs.block_size as int,
            i + p[0].n,
            Some((first + 1) as u64),
            splice(out, i * fs.block_size, joined(c.take(p[0].n as int))),
        ),
{
    let bs = fs.block_size as int;
    let size = inode.size as int;
    standing_lengths(fs, d, algo, p, c, first, size, i);
    let n = p[0].n as int;
    let rest = p.drop_first();
    let more = c.skip(n);
    let span = joined(c.take(n));
    entries_match_rest(entries, algo, p, c, i);
    span_length(c, n, bs, size, i);
    rows(i, n, c.len() as int, bs, size);
    if more.len() > 0 {
        assert(rest.len() > 0) by {
            reveal_with_fuel(restores, 2);
        }
        entries_match_rest(entries, algo, rest, more, i + n);
    }
    if p[0].head {
        head_segment(entries, inode, bs, i, n, cursor, first);
    } else {
        plain_segment(entries, inode, bs, i, cursor, first);
    }
    let s = segment_at(entries, inode, bs, i, cursor)->Ok_0.0->Some_0;
    let next = Some((first + 1) as u64);
    first_segment_data(fs, d, algo, p, c, first, size, i, s);
    if n == 2 {
        filler_is_skipped(fs, d, entries, inode, bs, i + 1, next, splice(out, i * bs, span));
    }
}

proof fn filler_is_skipped(
    fs: Superblock,
    d: Seq<u8>,
    entries: Seq<CompactEntry>,
    inode: Inode,
    bs: int,
    i: int,
    cursor: Option<u64>,
    out: Seq<u8>,
)
    requires
        0 <= i < entries.len(),
        0 <= bs,
        entries[i].kind == CLUSTER_TYPE_NONHEAD,
        entries[i].lcn == i,
        entries[i].value == 1,
        i * bs <= u32::MAX,
    ensures
        filled_from(fs, d, entries, inode, bs, i, cursor, out) == filled_from(
            fs,
            d,
            entries,
            inode,
            bs,
            i + 1,
            cursor,
            out,
        ),
{
}

/// The bytes of the first one or two clusters reach to the next one, or to
/// the end of the file.
pub proof fn span_length(c: Seq<Seq<u8>>, n: int, bs: int, size: int, i: int)
    requires
        1 <= n <= 2,
        n <= c.len(),
        0 <= i,
        512 <= bs,
        forall|q: int|
            0 <= q < c.len() ==> (#[trigger] c[q]).len() == least(bs, size - (i + q) * bs)
                && c[q].len() > 0,
        size <= (i + c.len()) * bs,
    ensures
        joined(c.take(n)).len() == least((i + n) * bs, size) - i * bs,
{
    let t = c.take(n);
    joined_few(t);
    assert(c[0].len() == least(bs, size - (i + 0) * bs));
    assert((i + 1) * bs == i * bs + bs) by (nonlinear_arith);
    assert((i + 2) * bs == i * bs + 2 * bs) by (nonlinear_arith);
    if n == 2 {
        assert(c[1].len() == least(bs, size - (i + 1) * bs));
    }
}

/// Where the clusters of a file stand in it.
pub proof fn rows(i: int, n: int, count: int, bs: int, size: int)
    requires
        1 <= n <= 2,
        n <= count,
        0 <= i,
        512 <= bs <= 16384,
        (i + count - 1) * bs < size <= (i + count) * bs,
        size <= u32::MAX,
    ensures
        0 <= i * bs < size,
        n < count ==> (i + n) * bs < size,
        (i + 1) * bs <= u32::MAX || n == 1,
        n == count ==> size <= (i + n) * bs,
{
    assert(0 <= i * bs && i * bs <= (i + count - 1) * bs) by (nonlinear_arith)
        requires
            0 <= i,
            bs > 0,
            count >= 1,
    ;
    if n < count {
        assert((i + n) * bs <= (i + count - 1) * bs) by (nonlinear_arith)
            requires
                n <= count - 1,
                bs > 0,
        ;
    }
    if n == 2 {
        assert((i + 1) * bs <= (i + count - 1) * bs) by (nonlinear_arith)
            requires
                2 <= count,
                bs > 0,
        ;
    }
}

} // verus!
