//! What a compressed file is, said of the clusters that an image holds of it:
//! clusters of one block or of many, in an index of words of any form.
use super::unpack_laws::joined_splits;
use crate::buf::{splice, zeros};
use crate::error::Fault;
use crate::fs::erofs::codec::decompressed;
use crate::fs::erofs::compress::{
    blocks_after, cluster_size, compact_data, filled_from, index_of, next_head, segment_at,
    segment_data, segments_from, CompactEntry, Segment,
};
use crate::fs::erofs::encode::joined;
use crate::fs::erofs::inode::Inode;
use crate::fs::erofs::Superblock;
use vstd::prelude::*;

verus! {

// ---------------------------------------------------------------------
// Runs
// ---------------------------------------------------------------------
/// A run of a file that is stored together: the logical cluster that it starts
/// in and where in it, and what the words of the clusters that follow say. Its
/// bytes stand in so many blocks, as they are (0), or compressed with the first
/// (1) or the second (3) algorithm of the file.
pub struct Run {
    pub kind: u8,
    pub first: int,
    pub offset: u32,
    pub followers: Seq<u32>,
    pub blocks: int,
}

impl Run {
    /// The logical cluster behind the run.
    pub open spec fn end(self) -> int {
        self.first + 1 + self.followers.len()
    }

    /// The number of blocks is what the words say: one follower says it, with
    /// the bit 0x800, the others say how far the head is; where none says it,
    /// there is one block.
    pub open spec fn counts(self) -> bool {
        if self.kind == 0 {
            self.followers.len() == 0 && self.blocks == 1
        } else {
            ||| self.blocks == 1 && forall|j: int|
                0 <= j < self.followers.len() ==> (#[trigger] self.followers[j]) < 0x800
            ||| exists|j: int| #[trigger] self.counted_by(j)
        }
    }

    /// The follower `j` says how many blocks there are.
    pub open spec fn counted_by(self, j: int) -> bool {
        &&& 0 <= j < self.followers.len()
        &&& 1 <= self.blocks < 0x800
        &&& self.followers[j] == 0x800 + self.blocks
        &&& forall|i: int| 0 <= i < j ==> (#[trigger] self.followers[i]) < 0x800
    }
}

/// The entries of an index are the words of the runs, one run behind the other.
pub open spec fn words_of_runs(entries: Seq<CompactEntry>, runs: Seq<Run>) -> bool {
    &&& runs.len() > 0
    &&& runs[0].first == 0
    &&& runs.last().end() == entries.len()
    &&& forall|k: int|
        0 <= k < runs.len() - 1 ==> #[trigger] runs[k].end() == runs[k + 1].first
    &&& forall|k: int|
        0 <= k < runs.len() ==> {
            let r = #[trigger] runs[k];
            &&& r.kind == 0 || r.kind == 1 || r.kind == 3
            &&& r.counts()
            &&& 0 <= r.first < entries.len()
            &&& entries[r.first].lcn == r.first
            &&& entries[r.first].kind == r.kind
            &&& entries[r.first].value == r.offset
            &&& followers_stand(entries, r)
        }
}

/// The entries behind that of the head say what the words of the run do.
pub open spec fn followers_stand(entries: Seq<CompactEntry>, r: Run) -> bool {
    forall|j: int|
        0 <= j < r.followers.len() ==> {
            let e = entries[r.first + 1 + j];
            &&& e.lcn == r.first + 1 + j
            &&& e.kind == 2
            &&& e.value == #[trigger] r.followers[j]
        }
}

/// Where a run starts in the file.
pub open spec fn starts_at(runs: Seq<Run>, k: int, cluster: int) -> int {
    runs[k].first * cluster + runs[k].offset
}

/// Where a run ends in the file.
pub open spec fn ends_at(runs: Seq<Run>, k: int, cluster: int, size: int) -> int {
    if k + 1 < runs.len() {
        starts_at(runs, k + 1, cluster)
    } else {
        size
    }
}

/// The blocks of the first `k` runs.
pub open spec fn blocks_of(runs: Seq<Run>, k: int) -> int
    decreases k,
{
    if k <= 0 {
        0
    } else {
        blocks_of(runs, k - 1) + runs[k - 1].blocks
    }
}

/// The runs cover the file, one behind the other, and none is too large.
pub open spec fn runs_fit(runs: Seq<Run>, cluster: int, size: int, bs: int) -> bool {
    &&& starts_at(runs, 0, cluster) == 0
    &&& forall|k: int|
        0 <= k < runs.len() ==> {
            &&& starts_at(runs, k, cluster) < #[trigger] ends_at(runs, k, cluster, size) <= size
            &&& runs[k].kind != 0 ==> ends_at(runs, k, cluster, size) - starts_at(runs, k, cluster)
                <= 67108864 && runs[k].blocks * bs <= 268435456
        }
}

/// The bytes of a run stand in its blocks, from block `at` on.
pub open spec fn run_stands(
    fs: Superblock,
    d: Seq<u8>,
    first_algorithm: u8,
    second_algorithm: u8,
    r: Run,
    at: int,
    c: Seq<u8>,
) -> bool {
    let from = at * fs.block_size;
    let end = from + r.blocks * fs.block_size;
    &&& end <= d.len()
    &&& if r.kind == 0 {
        c.len() <= fs.block_size && d.subrange(from, from + c.len()) == c
    } else {
        decompressed(
            d.subrange(from, end),
            c.len() as int,
            if r.kind == 1 {
                first_algorithm
            } else {
                second_algorithm
            },
            fs.feature_incompat % 2 == 1,
        ) == Ok::<Seq<u8>, Fault>(c)
    }
}

/// The bytes of all runs stand in an image, in blocks that follow each other
/// from `first` on.
pub open spec fn runs_stand(
    fs: Superblock,
    d: Seq<u8>,
    inode: Inode,
    cluster: int,
    runs: Seq<Run>,
    first: int,
    c: Seq<Seq<u8>>,
) -> bool {
    &&& c.len() == runs.len()
    &&& 0 <= first
    &&& forall|k: int|
        0 <= k < runs.len() ==> {
            &&& (#[trigger] c[k]).len() == ends_at(runs, k, cluster, inode.size as int) - starts_at(
                runs,
                k,
                cluster,
            )
            &&& run_stands(
                fs,
                d,
                (inode.algorithm_type % 16) as u8,
                (inode.algorithm_type / 16) as u8,
                runs[k],
                first + blocks_of(runs, k),
                c[k],
            )
        }
}

proof fn blocks_add_up(runs: Seq<Run>, k: int)
    requires
        0 <= k <= runs.len(),
        forall|i: int| 0 <= i < runs.len() ==> (#[trigger] runs[i]).counts(),
    ensures
        0 <= blocks_of(runs, k),
    decreases k,
{
    if k > 0 {
        blocks_add_up(runs, k - 1);
        assert(runs[k - 1].counts());
    }
}

// ---------------------------------------------------------------------
// Segments
// ---------------------------------------------------------------------
proof fn heads_are_found(entries: Seq<CompactEntry>, i: int, end: int)
    requires
        0 <= i <= end <= entries.len(),
        forall|q: int| i <= q < end ==> (#[trigger] entries[q]).kind == 2,
        end < entries.len() ==> entries[end].kind != 2,
    ensures
        next_head(entries, i) == end,
    decreases end - i,
{
    if i < end {
        heads_are_found(entries, i + 1, end);
    }
}

proof fn blocks_are_counted(entries: Seq<CompactEntry>, r: Run, i: int)
    requires
        r.kind != 0,
        r.counts(),
        0 <= i <= r.followers.len(),
        r.end() <= entries.len(),
        0 <= r.first,
        r.end() < entries.len() ==> entries[r.end()].kind != 2,
        followers_stand(entries, r),
        forall|j: int| 0 <= j < i ==> (#[trigger] r.followers[j]) < 0x800,
    ensures
        blocks_after(entries, r.first + 1 + i) == r.blocks,
    decreases r.followers.len() - i,
{
    if i < r.followers.len() {
        assert(entries[r.first + 1 + i].value == r.followers[i]);
        if r.followers[i] < 0x800 {
            blocks_are_counted(entries, r, i + 1);
        } else {
            let j = choose|j: int| #[trigger] r.counted_by(j);
            assert(r.counted_by(j)) by {
                if forall|j: int| 0 <= j < r.followers.len() ==> (#[trigger] r.followers[j]) < 0x800 {
                    assert(r.followers[i] < 0x800);
                }
            }
            if i < j {
                assert(r.followers[i] < 0x800);
            } else if j < i {
                assert(r.followers[j] < 0x800);
            }
        }
    } else {
        if exists|j: int| #[trigger] r.counted_by(j) {
            let j = choose|j: int| #[trigger] r.counted_by(j);
            assert(r.followers[j] < 0x800);
        }
    }
}

/// The segment that a run comes to: it starts and ends where the run does, and
/// takes the blocks of the run.
proof fn runs_are_segments(
    entries: Seq<CompactEntry>,
    inode: Inode,
    cluster: int,
    bs: int,
    runs: Seq<Run>,
    k: int,
    cursor: Option<u64>,
    physical: int,
)
    requires
        words_of_runs(entries, runs),
        runs_fit(runs, cluster, inode.size as int, bs),
        0 <= k < runs.len(),
        0 < cluster,
        0 < bs,
        0 <= physical,
        physical + runs[k].blocks <= u64::MAX,
        match cursor {
            Some(p) => p == physical,
            None => entries[runs[k].first].pblk == physical,
        },
    ensures
        segment_at(entries, inode, cluster, runs[k].first, cursor) == Ok::<
            (Option<Segment>, Option<u64>),
            Fault,
        >(
            (
                Some(
                    Segment {
                        kind: runs[k].kind,
                        start: starts_at(runs, k, cluster) as u64,
                        end: ends_at(runs, k, cluster, inode.size as int) as u64,
                        physical: physical as u64,
                        compressed_blocks: if runs[k].kind == 0 {
                            0
                        } else {
                            runs[k].blocks as u64
                        },
                        algorithm: if runs[k].kind == 0 {
                            0
                        } else if runs[k].kind == 1 {
                            (inode.algorithm_type % 16) as u8
                        } else {
                            (inode.algorithm_type / 16) as u8
                        },
                    },
                ),
                Some((physical + runs[k].blocks) as u64),
            ),
        ),
{
    let r = runs[k];
    let size = inode.size as int;
    let start = starts_at(runs, k, cluster);
    let end = ends_at(runs, k, cluster, size);
    assert(start < end <= size);
    assert(start >= 0) by (nonlinear_arith)
        requires
            start == r.first * cluster + r.offset,
            r.first >= 0,
            cluster > 0,
            r.offset >= 0,
    ;
    if k + 1 < runs.len() {
        assert(runs[k].end() == runs[k + 1].first);
        assert(runs[k + 1].kind != 2);
    } else {
        assert(runs.last() == runs[k]);
    }
    if r.kind == 0 {
        assert(r.followers.len() == 0);
    } else {
        assert forall|q: int| r.first + 1 <= q < r.end() implies (#[trigger] entries[q]).kind
            == 2 by {
            assert(r.followers[q - r.first - 1] == entries[r.first + 1 + (q - r.first - 1)].value);
        }
        heads_are_found(entries, r.first + 1, r.end());
        blocks_are_counted(entries, r, 0);
    }
}

/// Followers come to nothing of their own.
proof fn followers_are_passed(
    fs: Superblock,
    d: Seq<u8>,
    entries: Seq<CompactEntry>,
    inode: Inode,
    cluster: int,
    i: int,
    end: int,
    cursor: Option<u64>,
    out: Seq<u8>,
)
    requires
        0 <= i <= end <= entries.len(),
        0 < cluster,
        entries.len() * cluster + u32::MAX <= u64::MAX,
        forall|q: int|
            i <= q < end ==> (#[trigger] entries[q]).kind == 2 && entries[q].lcn == q,
    ensures
        filled_from(fs, d, entries, inode, cluster, i, cursor, out) == filled_from(
            fs,
            d,
            entries,
            inode,
            cluster,
            end,
            cursor,
            out,
        ),
    decreases end - i,
{
    if i < end {
        assert(i * cluster <= entries.len() * cluster) by (nonlinear_arith)
            requires
                i <= entries.len(),
                cluster > 0,
        ;
        followers_are_passed(fs, d, entries, inode, cluster, i + 1, end, cursor, out);
    }
}

/// The data of a segment of a run that stands in an image.
proof fn segments_have_the_bytes(
    fs: Superblock,
    d: Seq<u8>,
    first_algorithm: u8,
    second_algorithm: u8,
    r: Run,
    at: int,
    c: Seq<u8>,
    s: Segment,
)
    requires
        run_stands(fs, d, first_algorithm, second_algorithm, r, at, c),
        d.len() <= u64::MAX,
        0 <= at,
        1 <= r.blocks,
        s.kind == r.kind,
        s.physical == at,
        s.end - s.start == c.len(),
        r.kind == 0 || r.kind == 1 || r.kind == 3,
        r.kind != 0 ==> s.compressed_blocks == r.blocks && r.blocks * fs.block_size <= 268435456,
        r.kind == 1 ==> s.algorithm == first_algorithm,
        r.kind == 3 ==> s.algorithm == second_algorithm,
    ensures
        segment_data(fs, d, s) == Ok::<Seq<u8>, Fault>(c),
{
    let bs = fs.block_size as int;
    assert(at * bs >= 0 && r.blocks * bs >= bs) by (nonlinear_arith)
        requires
            at >= 0,
            bs >= 0,
            r.blocks >= 1,
    ;
    assert(bs * r.blocks == r.blocks * bs) by (nonlinear_arith);
    assert(s.physical * fs.block_size == at * bs);
}

/// Reading a file from its index gives the bytes of its runs, from one run on.
proof fn runs_fill(
    fs: Superblock,
    d: Seq<u8>,
    entries: Seq<CompactEntry>,
    inode: Inode,
    cluster: int,
    runs: Seq<Run>,
    first: int,
    c: Seq<Seq<u8>>,
    k: int,
    cursor: Option<u64>,
    out: Seq<u8>,
)
    requires
        words_of_runs(entries, runs),
        0 < fs.block_size,
        0 < cluster,
        entries.len() * cluster + u32::MAX <= u64::MAX,
        runs_fit(runs, cluster, inode.size as int, fs.block_size as int),
        runs_stand(fs, d, inode, cluster, runs, first, c),
        d.len() <= u64::MAX,
        0 <= k < runs.len(),
        match cursor {
            Some(p) => p == first + blocks_of(runs, k),
            None => entries[runs[k].first].pblk == first + blocks_of(runs, k),
        },
        out.len() == inode.size,
    ensures
        joined(c.skip(k)).len() == inode.size - starts_at(runs, k, cluster),
        filled_from(fs, d, entries, inode, cluster, runs[k].first, cursor, out) == Ok::<
            Seq<u8>,
            Fault,
        >(out.take(starts_at(runs, k, cluster)) + joined(c.skip(k))),
    decreases runs.len() - k,
{
    let r = runs[k];
    let size = inode.size as int;
    let bs = fs.block_size as int;
    let at = first + blocks_of(runs, k);
    let start = starts_at(runs, k, cluster);
    let end = ends_at(runs, k, cluster, size);
    assert(r.counts());
    assert forall|i: int| 0 <= i < runs.len() implies (#[trigger] runs[i]).counts() by {}
    blocks_add_up(runs, k);
    assert(c[k].len() == end - start);
    assert(start < end <= size);
    assert(start >= 0) by (nonlinear_arith)
        requires
            start == r.first * cluster + r.offset,
            r.first >= 0,
            cluster > 0,
            r.offset >= 0,
    ;
    assert(at + r.blocks <= d.len()) by (nonlinear_arith)
        requires
            at * bs + r.blocks * bs <= d.len(),
            bs >= 1,
            at >= 0,
            r.blocks >= 1,
    ;
    runs_are_segments(entries, inode, cluster, bs, runs, k, cursor, at);
    let s = segment_at(entries, inode, cluster, r.first, cursor)->Ok_0.0->Some_0;
    segments_have_the_bytes(
        fs,
        d,
        (inode.algorithm_type % 16) as u8,
        (inode.algorithm_type / 16) as u8,
        r,
        at,
        c[k],
        s,
    );
    let next = Some((at + r.blocks) as u64);
    let filled = splice(out, start, c[k]);
    assert(r.end() <= entries.len()) by {
        if k + 1 < runs.len() {
            assert(runs[k].end() == runs[k + 1].first);
            assert(runs[k + 1].counts());
        } else {
            assert(runs.last() == runs[k]);
        }
    }
    assert forall|q: int| r.first + 1 <= q < r.end() implies (#[trigger] entries[q]).kind == 2
        && entries[q].lcn == q by {
        assert(r.followers[q - r.first - 1] == entries[r.first + 1 + (q - r.first - 1)].value);
    }
    followers_are_passed(fs, d, entries, inode, cluster, r.first + 1, r.end(), next, filled);
    let rest = c.skip(k + 1);
    assert(c.skip(k) =~= seq![c[k]] + rest);
    joined_splits(seq![c[k]], rest);
    assert(joined(seq![c[k]]) =~= c[k]) by {
        assert(seq![c[k]].drop_last() =~= Seq::empty());
        assert(joined(seq![c[k]].drop_last()) =~= Seq::empty());
    }
    if k + 1 < runs.len() {
        assert(runs[k].end() == runs[k + 1].first);
        assert(blocks_of(runs, k + 1) == blocks_of(runs, k) + r.blocks);
        runs_fill(fs, d, entries, inode, cluster, runs, first, c, k + 1, next, filled);
        assert(filled.take(end) =~= out.take(start) + c[k]);
        assert(out.take(start) + c[k] + joined(rest) =~= out.take(start) + (c[k] + joined(rest)));
    } else {
        assert(runs.last() == runs[k]);
        assert(rest =~= Seq::empty());
        assert(joined(rest) =~= Seq::empty());
        assert(filled =~= out.take(start) + joined(c.skip(k)));
    }
}

/// A file whose index holds the words of runs reads as the bytes of the runs:
/// those that stand in the blocks of a run as they are, and those that its
/// blocks, all of them, are decompressed to. The blocks of a run follow those of
/// the run before it.
pub proof fn runs_read_back(
    fs: Superblock,
    d: Seq<u8>,
    inode: Inode,
    entries: Seq<CompactEntry>,
    runs: Seq<Run>,
    c: Seq<Seq<u8>>,
)
    requires
        index_of(fs, d, inode) == Ok::<Seq<CompactEntry>, Fault>(entries),
        words_of_runs(entries, runs),
        0 < fs.block_size,
        0 < cluster_size(fs, inode),
        entries.len() * cluster_size(fs, inode) + u32::MAX <= u64::MAX,
        runs_fit(runs, cluster_size(fs, inode), inode.size as int, fs.block_size as int),
        runs_stand(
            fs,
            d,
            inode,
            cluster_size(fs, inode),
            runs,
            entries[0].pblk as int,
            c,
        ),
        d.len() <= u64::MAX,
    ensures
        compact_data(fs, d, inode, zeros(inode.size as int)) == Ok::<Seq<u8>, Fault>(joined(c)),
        joined(c).len() == inode.size,
{
    let out = zeros(inode.size as int);
    let cluster = cluster_size(fs, inode);
    assert(runs[0].first == 0);
    runs_fill(
        fs,
        d,
        entries,
        inode,
        cluster,
        runs,
        entries[0].pblk as int,
        c,
        0,
        None,
        out,
    );
    assert(c.skip(0) =~= c);
    assert(out.take(0) + joined(c) =~= joined(c));
}

/// Where the runs of a file are: each is one segment, which starts and ends
/// where the run does and takes its blocks, and the blocks of a segment follow
/// those of the segment before it.
pub proof fn runs_come_to_segments(
    entries: Seq<CompactEntry>,
    inode: Inode,
    cluster: int,
    bs: int,
    runs: Seq<Run>,
    k: int,
    cursor: Option<u64>,
) -> (s: Seq<Segment>)
    requires
        words_of_runs(entries, runs),
        0 < bs,
        0 < cluster,
        entries.len() * cluster + u32::MAX <= u64::MAX,
        runs_fit(runs, cluster, inode.size as int, bs),
        entries[0].pblk + blocks_of(runs, runs.len() as int) <= u64::MAX,
        0 <= k < runs.len(),
        cursor == if k == 0 {
            None::<u64>
        } else {
            Some((entries[0].pblk + blocks_of(runs, k)) as u64)
        },
    ensures
        segments_from(entries, inode, cluster, runs[k].first, cursor) == Ok::<Seq<Segment>, Fault>(
            s,
        ),
        s.len() == runs.len() - k,
        forall|i: int|
            0 <= i < s.len() ==> {
                let x = #[trigger] s[i];
                let r = runs[k + i];
                &&& x.kind == r.kind
                &&& x.start == starts_at(runs, k + i, cluster)
                &&& x.end == ends_at(runs, k + i, cluster, inode.size as int)
                &&& x.physical == entries[0].pblk + blocks_of(runs, k + i)
                &&& r.kind != 0 ==> x.compressed_blocks == r.blocks
            },
    decreases runs.len() - k,
{
    let r = runs[k];
    let size = inode.size as int;
    let at = entries[0].pblk + blocks_of(runs, k);
    assert forall|i: int| 0 <= i < runs.len() implies (#[trigger] runs[i]).counts() by {}
    blocks_add_up(runs, k);
    blocks_only_grow(runs, k, runs.len() as int);
    assert(starts_at(runs, k, cluster) < ends_at(runs, k, cluster, size) <= size);
    assert(starts_at(runs, k, cluster) >= 0) by (nonlinear_arith)
        requires
            starts_at(runs, k, cluster) == r.first * cluster + r.offset,
            r.first >= 0,
            cluster > 0,
            r.offset >= 0,
    ;
    blocks_only_grow(runs, k + 1, runs.len() as int);
    assert(blocks_of(runs, k + 1) == blocks_of(runs, k) + r.blocks);
    assert(r.counts());
    runs_are_segments(entries, inode, cluster, bs, runs, k, cursor, at);
    let x = segment_at(entries, inode, cluster, r.first, cursor)->Ok_0.0->Some_0;
    let next = Some((at + r.blocks) as u64);
    assert(r.end() <= entries.len()) by {
        if k + 1 < runs.len() {
            assert(runs[k].end() == runs[k + 1].first);
            assert(runs[k + 1].counts());
        } else {
            assert(runs.last() == runs[k]);
        }
    }
    assert forall|q: int| r.first + 1 <= q < r.end() implies (#[trigger] entries[q]).kind == 2
        && entries[q].lcn == q by {
        assert(r.followers[q - r.first - 1] == entries[r.first + 1 + (q - r.first - 1)].value);
    }
    followers_give_no_segment(entries, inode, cluster, r.first + 1, r.end(), next);
    if k + 1 < runs.len() {
        assert(runs[k].end() == runs[k + 1].first);
        let rest = runs_come_to_segments(entries, inode, cluster, bs, runs, k + 1, next);
        let s = seq![x] + rest;
        assert forall|i: int| 0 <= i < s.len() implies {
            let y = #[trigger] s[i];
            let q = runs[k + i];
            &&& y.kind == q.kind
            &&& y.start == starts_at(runs, k + i, cluster)
            &&& y.end == ends_at(runs, k + i, cluster, size)
            &&& y.physical == entries[0].pblk + blocks_of(runs, k + i)
            &&& q.kind != 0 ==> y.compressed_blocks == q.blocks
        } by {
            if i > 0 {
                assert(s[i] == rest[i - 1]);
                assert(k + i == k + 1 + (i - 1));
            }
        }
        s
    } else {
        assert(runs.last() == runs[k]);
        let none = Seq::<Segment>::empty();
        assert(seq![x] + none =~= seq![x]);
        seq![x]
    }
}

proof fn blocks_only_grow(runs: Seq<Run>, k: int, n: int)
    requires
        0 <= k <= n <= runs.len(),
        forall|i: int| 0 <= i < runs.len() ==> (#[trigger] runs[i]).counts(),
    ensures
        blocks_of(runs, k) <= blocks_of(runs, n),
    decreases n - k,
{
    if k < n {
        blocks_only_grow(runs, k, n - 1);
        assert(runs[n - 1].counts());
    }
}

proof fn followers_give_no_segment(
    entries: Seq<CompactEntry>,
    inode: Inode,
    cluster: int,
    i: int,
    end: int,
    cursor: Option<u64>,
)
    requires
        0 <= i <= end <= entries.len(),
        0 < cluster,
        entries.len() * cluster + u32::MAX <= u64::MAX,
        forall|q: int|
            i <= q < end ==> (#[trigger] entries[q]).kind == 2 && entries[q].lcn == q,
    ensures
        segments_from(entries, inode, cluster, i, cursor) == segments_from(
            entries,
            inode,
            cluster,
            end,
            cursor,
        ),
    decreases end - i,
{
    if i < end {
        assert(i * cluster <= entries.len() * cluster) by (nonlinear_arith)
            requires
                i <= entries.len(),
                cluster > 0,
        ;
        followers_give_no_segment(entries, inode, cluster, i + 1, end, cursor);
    }
}

} // verus!
