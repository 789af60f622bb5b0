//! Compressing file data into physical clusters and their index.
//!
//! - One logical cluster is one filesystem block.
//! - A physical cluster holds one or two consecutive logical clusters, two
//!   only where the first one has an even number, packed into a single block
//!   when the compressed span is smaller than the span.
//! - Index entries are all of the four-byte kind. Spans that do not shrink
//!   are stored plain, so compressing never takes more blocks than storing.
use super::codec::{compress_pcluster, compressed, decompressed, Algo};
use super::compress::{CLUSTER_TYPE_HEAD1, CLUSTER_TYPE_NONHEAD, CLUSTER_TYPE_PLAIN};
use crate::buf::{bytes16, bytes32, push16, push32, push_bytes};
use crate::error::Fault;
use crate::math::{ceil_div, div_up, least};
use rayon::iter::{IntoParallelRefIterator, ParallelIterator};
use vstd::prelude::*;

verus! {

/// Max logical clusters per physical cluster.
pub const MAX_CLUSTERS_PER_PCLUSTER: usize = 2;

/// One emitted physical cluster: either a compressed group of logical
/// clusters in one block, or a single plain one.
pub struct Pcluster {
    pub head: bool,
    pub n_clusters: u32,
    pub payload: Vec<u8>,
}

/// The mathematical counterpart of [`Pcluster`].
#[verifier::ext_equal]
pub struct PclusterView {
    pub head: bool,
    pub n: u32,
    pub payload: Seq<u8>,
}

impl View for Pcluster {
    type V = PclusterView;

    open spec fn view(&self) -> PclusterView {
        PclusterView { head: self.head, n: self.n_clusters, payload: self.payload@ }
    }
}

/// The views of a sequence of physical clusters.
pub open spec fn pcl_views(s: Seq<Pcluster>) -> Seq<PclusterView> {
    s.map_values(|p: Pcluster| p@)
}

/// The views of a sequence of logical clusters.
pub open spec fn cluster_views(s: Seq<Vec<u8>>) -> Seq<Seq<u8>> {
    s.map_values(|c: Vec<u8>| c@)
}

/// The bytes of clusters, one after the other.
pub open spec fn joined(s: Seq<Seq<u8>>) -> Seq<u8>
    decreases s.len(),
{
    if s.len() == 0 {
        Seq::empty()
    } else {
        joined(s.drop_last()) + s.last()
    }
}

// ---------------------------------------------------------------------
// Packing
// ---------------------------------------------------------------------
/// A single cluster, compressed where that pays off.
pub open spec fn packed_one(algo: Algo, block_size: int, cluster: Seq<u8>) -> PclusterView {
    match compressed(algo, cluster) {
        Some(c) if c.len() <= block_size => PclusterView { head: true, n: 1, payload: c },
        _ => PclusterView { head: false, n: 1, payload: cluster },
    }
}

/// A group of clusters: one physical cluster where that pays off, else each
/// cluster by itself.
pub open spec fn packed_pair(algo: Algo, block_size: int, pair: Seq<Seq<u8>>) -> Seq<PclusterView> {
    let span = joined(pair);
    match compressed(algo, span) {
        Some(c) if span.len() <= block_size * MAX_CLUSTERS_PER_PCLUSTER && c.len() <= block_size =>
        seq![PclusterView { head: true, n: pair.len() as u32, payload: c }],
        _ => if pair.len() == 1 {
            seq![PclusterView { head: false, n: 1, payload: span }]
        } else {
            pair.map_values(|cluster: Seq<u8>| packed_one(algo, block_size, cluster))
        },
    }
}

/// The physical clusters of the logical clusters from `i` on.
pub open spec fn packed_from(algo: Algo, block_size: int, clusters: Seq<Seq<u8>>, i: int) -> Seq<
    PclusterView,
>
    decreases clusters.len() + 2 - i,
{
    if i >= clusters.len() {
        Seq::empty()
    } else {
        packed_pair(
            algo,
            block_size,
            clusters.subrange(i, least(i + 2, clusters.len() as int)),
        ) + packed_from(algo, block_size, clusters, i + 2)
    }
}

/// The payload decompresses to the span, whatever pads its block.
pub open spec fn unpacks_to(algo: Algo, payload: Seq<u8>, span: Seq<u8>) -> bool {
    forall|pad: Seq<u8>|
        decompressed(#[trigger] (payload + pad), span.len() as int, algo.id(), false) == Ok::<
            Seq<u8>,
            Fault,
        >(span)
}

/// The physical clusters hold the logical ones, in order and completely.
pub open spec fn restores(algo: Algo, pcls: Seq<PclusterView>, clusters: Seq<Seq<u8>>) -> bool
    decreases pcls.len(),
{
    if pcls.len() == 0 {
        clusters.len() == 0
    } else {
        let p = pcls[0];
        &&& 1 <= p.n <= clusters.len()
        &&& p.n <= 2
        &&& if p.head {
            unpacks_to(algo, p.payload, joined(clusters.take(p.n as int)))
        } else {
            p.n == 1 && p.payload == clusters[0]
        }
        &&& restores(algo, pcls.drop_first(), clusters.skip(p.n as int))
    }
}

/// What packing a group of clusters comes to.
pub open spec fn pair_result(
    algo: Algo,
    block_size: int,
    pair: Seq<Seq<u8>>,
    out: Seq<PclusterView>,
) -> bool {
    &&& out == packed_pair(algo, block_size, pair)
    &&& 1 <= pair.len() <= 2 ==> restores(algo, out, pair)
}

/// Groups of physical clusters, one after the other.
pub open spec fn chained(parts: Seq<Seq<PclusterView>>) -> Seq<PclusterView>
    decreases parts.len(),
{
    if parts.len() == 0 {
        Seq::empty()
    } else {
        parts[0] + chained(parts.drop_first())
    }
}

/// What holds of two runs of clusters holds of them together.
pub proof fn restores_append(
    algo: Algo,
    a: Seq<PclusterView>,
    b: Seq<PclusterView>,
    x: Seq<Seq<u8>>,
    y: Seq<Seq<u8>>,
)
    requires
        restores(algo, a, x),
        restores(algo, b, y),
    ensures
        restores(algo, a + b, x + y),
    decreases a.len(),
{
    if a.len() == 0 {
        assert(a + b =~= b);
        assert(x + y =~= y);
    } else {
        let n = a[0].n as int;
        restores_append(algo, a.drop_first(), b, x.skip(n), y);
        assert((a + b).drop_first() =~= a.drop_first() + b);
        assert((x + y).skip(n) =~= x.skip(n) + y);
        assert((x + y).take(n) =~= x.take(n));
    }
}

proof fn joined_one(c: Seq<u8>)
    ensures
        joined(seq![c]) == c,
{
    let s = seq![c];
    assert(s.drop_last() =~= Seq::empty());
    assert(joined(s.drop_last()) =~= Seq::empty());
    assert(joined(s) =~= c);
}

fn pack_one(algo: Algo, block_size: usize, cluster: &[u8]) -> (p: Pcluster)
    ensures
        p@ == packed_one(algo, block_size as int, cluster@),
        p@.head ==> unpacks_to(algo, p@.payload, cluster@),
{
    match compress_pcluster(algo, cluster) {
        Some(c) => {
            if c.len() <= block_size {
                return Pcluster { head: true, n_clusters: 1, payload: c };
            }
        },
        None => {},
    }
    Pcluster {
        head: false,
        n_clusters: 1,
        payload: crate::buf::copy_range(cluster, 0, cluster.len()),
    }
}

/// Pack one aligned group of clusters without any state beyond it.
pub fn pack_pair(algo: Algo, block_size: usize, pair: &[Vec<u8>]) -> (out: Vec<Pcluster>)
    ensures
        pair_result(algo, block_size as int, cluster_views(pair@), pcl_views(out@)),
{
    let ghost views = cluster_views(pair@);
    let mut span: Vec<u8> = Vec::new();
    let mut i: usize = 0;
    assert(views.take(0) =~= Seq::empty());
    while i < pair.len()
        invariant
            i <= pair.len(),
            views == cluster_views(pair@),
            span@ == joined(views.take(i as int)),
        decreases pair.len() - i,
    {
        push_bytes(&mut span, &pair[i]);
        proof {
            let next = views.take(i + 1);
            assert(next.drop_last() =~= views.take(i as int));
            assert(next.last() == views[i as int]);
        }
        i += 1;
    }
    assert(views.take(i as int) =~= views);
    let mut out: Vec<Pcluster> = Vec::new();
    if span.len() as u128 <= block_size as u128 * 2 {
        match compress_pcluster(algo, &span) {
            Some(c) => {
                if c.len() <= block_size {
                    let ghost cv = c@;
                    out.push(Pcluster { head: true, n_clusters: pair.len() as u32, payload: c });
                    proof {
                        assert(pcl_views(out@) =~= packed_pair(algo, block_size as int, views));
                        let o = pcl_views(out@);
                        if 1 <= pair.len() <= 2 {
                            let n = pair.len() as int;
                            assert(o[0].n == n);
                            assert(views.take(n) =~= views);
                            assert(o.drop_first() =~= Seq::empty());
                            assert(views.skip(n) =~= Seq::empty());
                            assert(restores(algo, o.drop_first(), views.skip(n)));
                        }
                    }
                    return out;
                }
            },
            None => {},
        }
    }
    if pair.len() == 1 {
        out.push(Pcluster { head: false, n_clusters: 1, payload: span });
        proof {
            let o = pcl_views(out@);
            assert(o =~= packed_pair(algo, block_size as int, views));
            assert(views =~= seq![views[0]]);
            joined_one(views[0]);
            assert(o.drop_first() =~= Seq::empty());
            assert(views.skip(1) =~= Seq::empty());
            assert(restores(algo, o.drop_first(), views.skip(1)));
        }
        return out;
    }
    let mut i: usize = 0;
    while i < pair.len()
        invariant
            i <= pair.len(),
            views == cluster_views(pair@),
            out@.len() == i,
            forall|k: int|
                0 <= k < i ==> {
                    &&& (#[trigger] out@[k])@ == packed_one(algo, block_size as int, views[k])
                    &&& out@[k]@.head ==> unpacks_to(algo, out@[k]@.payload, views[k])
                },
        decreases pair.len() - i,
    {
        let p = pack_one(algo, block_size, &pair[i]);
        out.push(p);
        i += 1;
    }
    proof {
        let o = pcl_views(out@);
        assert(o =~= packed_pair(algo, block_size as int, views));
        if pair.len() == 2 {
            singles_restore(algo, o, views);
        }
    }
    out
}

proof fn singles_restore(algo: Algo, o: Seq<PclusterView>, views: Seq<Seq<u8>>)
    requires
        o.len() == views.len(),
        forall|k: int|
            0 <= k < o.len() ==> {
                &&& (#[trigger] o[k]).n == 1
                &&& o[k].head ==> unpacks_to(algo, o[k].payload, views[k])
                &&& !o[k].head ==> o[k].payload == views[k]
            },
    ensures
        restores(algo, o, views),
    decreases o.len(),
{
    if o.len() > 0 {
        let rest = o.drop_first();
        let more = views.skip(1);
        assert forall|k: int| 0 <= k < rest.len() implies {
            &&& (#[trigger] rest[k]).n == 1
            &&& rest[k].head ==> unpacks_to(algo, rest[k].payload, more[k])
            &&& !rest[k].head ==> rest[k].payload == more[k]
        } by {
            assert(rest[k] == o[k + 1]);
            assert(more[k] == views[k + 1]);
        }
        singles_restore(algo, rest, more);
        assert(views.take(1) =~= seq![views[0]]);
        joined_one(views[0]);
        assert(o[0].n == 1);
    }
}

/// The views of groups of clusters.
pub open spec fn pair_views(pairs: Seq<&[Vec<u8>]>) -> Seq<Seq<Seq<u8>>> {
    pairs.map_values(|p: &[Vec<u8>]| cluster_views(p@))
}

/// The physical clusters are those of the groups, in the order of the
/// groups.
pub open spec fn pairs_result(
    algo: Algo,
    block_size: int,
    pairs: Seq<Seq<Seq<u8>>>,
    out: Seq<PclusterView>,
) -> bool {
    exists|parts: Seq<Seq<PclusterView>>|
        {
            &&& parts.len() == pairs.len()
            &&& forall|i: int|
                0 <= i < pairs.len() ==> pair_result(algo, block_size, pairs[i], #[trigger] parts[i])
            &&& out == #[trigger] chained(parts)
        }
}

/// `flat_map_iter` of `rayon` hands every group to [`pack_pair`], and
/// `collect` into a vector keeps what each group gave together and in the
/// order of the groups.
#[verifier::external_body]
fn pack_pairs(algo: Algo, block_size: usize, pairs: &Vec<&[Vec<u8>]>) -> (out: Vec<Pcluster>)
    ensures
        pairs_result(algo, block_size as int, pair_views(pairs@), pcl_views(out@)),
{
    pairs.par_iter().flat_map_iter(|pair| pack_pair(algo, block_size, pair)).collect()
}

/// The groups of two of the clusters from `i` on.
spec fn pairs_from(clusters: Seq<Seq<u8>>, i: int) -> Seq<Seq<Seq<u8>>>
    decreases clusters.len() + 2 - i,
{
    if i >= clusters.len() {
        Seq::empty()
    } else {
        seq![clusters.subrange(i, least(i + 2, clusters.len() as int))] + pairs_from(
            clusters,
            i + 2,
        )
    }
}

proof fn chained_is_packed(
    algo: Algo,
    block_size: int,
    clusters: Seq<Seq<u8>>,
    i: int,
    parts: Seq<Seq<PclusterView>>,
)
    requires
        0 <= i,
        parts.len() == pairs_from(clusters, i).len(),
        forall|k: int|
            0 <= k < parts.len() ==> pair_result(
                algo,
                block_size,
                pairs_from(clusters, i)[k],
                #[trigger] parts[k],
            ),
    ensures
        chained(parts) == packed_from(algo, block_size, clusters, i),
        i <= clusters.len() ==> restores(algo, chained(parts), clusters.skip(i)),
    decreases clusters.len() + 2 - i,
{
    let pairs = pairs_from(clusters, i);
    if i < clusters.len() {
        let rest = parts.drop_first();
        let n = least(i + 2, clusters.len() as int);
        let here = clusters.subrange(i, n);
        let others = pairs_from(clusters, i + 2);
        assert(pairs[0] == here);
        assert(pair_result(algo, block_size, pairs[0], parts[0]));
        assert forall|k: int| 0 <= k < rest.len() implies pair_result(
            algo,
            block_size,
            others[k],
            #[trigger] rest[k],
        ) by {
            assert(rest[k] == parts[k + 1]);
            assert(others[k] == pairs[k + 1]);
        }
        chained_is_packed(algo, block_size, clusters, i + 2, rest);
        if i + 2 <= clusters.len() {
            assert(clusters.skip(i) =~= here + clusters.skip(i + 2));
            restores_append(algo, parts[0], chained(rest), here, clusters.skip(i + 2));
        } else {
            assert(rest.len() == 0);
            assert(chained(rest) =~= Seq::empty());
            assert(parts[0] + chained(rest) =~= parts[0]);
            assert(clusters.skip(i) =~= here);
        }
    } else {
        assert(parts.len() == 0);
        assert(i <= clusters.len() ==> clusters.skip(i) =~= Seq::empty());
    }
}

/// Group an ordered cluster run into physical clusters. Pairing is
/// positional, so every pair is independent and compression runs in
/// parallel; the clusters keep their order and nothing is lost.
pub fn pack_clusters(algo: Algo, block_size: usize, clusters: &[Vec<u8>]) -> (out: Vec<Pcluster>)
    ensures
        pcl_views(out@) == packed_from(algo, block_size as int, cluster_views(clusters@), 0),
        restores(algo, pcl_views(out@), cluster_views(clusters@)),
{
    let ghost views = cluster_views(clusters@);
    let mut pairs: Vec<&[Vec<u8>]> = Vec::new();
    let mut i: usize = 0;
    assert(pair_views(pairs@) + pairs_from(views, 0) =~= pairs_from(views, 0));
    while i < clusters.len()
        invariant
            i <= clusters.len(),
            views == cluster_views(clusters@),
            pair_views(pairs@) + (if i < clusters.len() {
                pairs_from(views, i as int)
            } else {
                Seq::empty()
            }) == pairs_from(views, 0),
        decreases clusters.len() - i,
    {
        let end = if clusters.len() - i < 2 {
            clusters.len()
        } else {
            i + 2
        };
        let pair = &clusters[i..end];
        let ghost before = pair_views(pairs@);
        pairs.push(pair);
        proof {
            let v = cluster_views(pair@);
            assert(v =~= views.subrange(i as int, end as int));
            assert(pair_views(pairs@) =~= before.push(v));
            let rest = if end < clusters.len() {
                pairs_from(views, end as int)
            } else {
                Seq::empty()
            };
            assert(pairs_from(views, i + 2) =~= rest);
            assert(pairs_from(views, i as int) =~= seq![v] + rest);
            assert(before + (seq![v] + rest) =~= pair_views(pairs@) + rest);
        }
        i = end;
    }
    assert(pair_views(pairs@) =~= pairs_from(views, 0));
    let out = pack_pairs(algo, block_size, &pairs);
    proof {
        let all = pair_views(pairs@);
        let o = pcl_views(out@);
        let parts = choose|parts: Seq<Seq<PclusterView>>|
            {
                &&& parts.len() == all.len()
                &&& forall|i: int|
                    0 <= i < all.len() ==> pair_result(
                        algo,
                        block_size as int,
                        all[i],
                        #[trigger] parts[i],
                    )
                &&& o == #[trigger] chained(parts)
            };
        chained_is_packed(algo, block_size as int, views, 0, parts);
        assert(views.skip(0) =~= views);
    }
    out
}

/// What every packed cluster keeps: it fits into one block, and no more
/// physical clusters come out than logical ones went in.
pub proof fn packing_never_grows(algo: Algo, block_size: int, clusters: Seq<Seq<u8>>, i: int)
    requires
        0 <= i,
        forall|k: int| 0 <= k < clusters.len() ==> (#[trigger] clusters[k]).len() <= block_size,
    ensures
        packed_from(algo, block_size, clusters, i).len() <= clusters.len() - i || i
            > clusters.len(),
        forall|k: int|
            0 <= k < packed_from(algo, block_size, clusters, i).len() ==> (
            #[trigger] packed_from(algo, block_size, clusters, i)[k]).payload.len() <= block_size,
    decreases clusters.len() + 2 - i,
{
    if i < clusters.len() {
        packing_never_grows(algo, block_size, clusters, i + 2);
        let pair = clusters.subrange(i, least(i + 2, clusters.len() as int));
        let here = packed_pair(algo, block_size, pair);
        let rest = packed_from(algo, block_size, clusters, i + 2);
        if pair.len() == 1 {
            assert(pair =~= seq![clusters[i]]);
            joined_one(clusters[i]);
        }
        assert forall|k: int| 0 <= k < here.len() implies (#[trigger] here[k]).payload.len()
            <= block_size by {
            if pair.len() == 2 && here.len() == 2 {
                assert(pair[k] == clusters[i + k]);
            }
        }
        assert(here.len() <= pair.len());
        if i + 2 > clusters.len() {
            assert(rest.len() == 0);
        }
        let all = here + rest;
        assert forall|k: int| 0 <= k < all.len() implies (#[trigger] all[k]).payload.len()
            <= block_size by {
            if k >= here.len() {
                assert(all[k] == rest[k - here.len()]);
            }
        }
    }
}

// ---------------------------------------------------------------------
// Index
// ---------------------------------------------------------------------
/// The fillers from the `k`-th on of a group of `n` clusters.
pub open spec fn fillers(n: int, k: int) -> Seq<(u8, u16)>
    decreases n - k,
{
    if k >= n {
        Seq::empty()
    } else {
        seq![(CLUSTER_TYPE_NONHEAD, k as u16)] + fillers(n, k + 1)
    }
}

/// The index entries of one physical cluster.
pub open spec fn cluster_entries(p: PclusterView) -> Seq<(u8, u16)> {
    if p.head {
        seq![(CLUSTER_TYPE_HEAD1, 0u16)] + fillers(p.n as int, 1)
    } else {
        seq![(CLUSTER_TYPE_PLAIN, 0u16)]
    }
}

/// The index entries of physical clusters.
pub open spec fn entries_of(pcls: Seq<PclusterView>) -> Seq<(u8, u16)>
    decreases pcls.len(),
{
    if pcls.len() == 0 {
        Seq::empty()
    } else {
        entries_of(pcls.drop_last()) + cluster_entries(pcls.last())
    }
}

/// Index entries `(kind, value)` for an ordered list of physical clusters.
pub fn index_entries(pclusters: &[Pcluster]) -> (entries: Vec<(u8, u16)>)
    ensures
        entries@ == entries_of(pcl_views(pclusters@)),
{
    let ghost views = pcl_views(pclusters@);
    let mut entries: Vec<(u8, u16)> = Vec::new();
    let mut i: usize = 0;
    assert(views.take(0) =~= Seq::empty());
    while i < pclusters.len()
        invariant
            i <= pclusters.len(),
            views == pcl_views(pclusters@),
            entries@ == entries_of(views.take(i as int)),
        decreases pclusters.len() - i,
    {
        let ghost before = entries@;
        let p = &pclusters[i];
        if p.head {
            entries.push((CLUSTER_TYPE_HEAD1, 0));
            let n = p.n_clusters;
            let mut k: u32 = 1;
            assert(entries@ + fillers(n as int, 1) =~= before + (seq![(CLUSTER_TYPE_HEAD1, 0u16)]
                + fillers(n as int, 1)));
            while k < n
                invariant
                    1 <= k,
                    k <= n || n == 0,
                    entries@ + fillers(n as int, k as int) == before + (seq![
                        (CLUSTER_TYPE_HEAD1, 0u16),
                    ] + fillers(n as int, 1)),
                decreases n - k,
            {
                let ghost prior = entries@;
                entries.push((CLUSTER_TYPE_NONHEAD, k as u16));
                assert(prior + fillers(n as int, k as int) =~= entries@ + fillers(
                    n as int,
                    k + 1,
                ));
                k += 1;
            }
            assert(entries@ + fillers(n as int, k as int) =~= entries@);
        } else {
            entries.push((CLUSTER_TYPE_PLAIN, 0));
        }
        proof {
            let next = views.take(i + 1);
            assert(next.drop_last() =~= views.take(i as int));
            assert(next.last() == p@);
            assert(entries@ =~= before + cluster_entries(p@));
        }
        i += 1;
    }
    assert(views.take(i as int) =~= views);
    entries
}

/// Byte length of the index for `total` logical clusters: entries pair up
/// into packs of eight bytes.
pub fn index_len(total_clusters: u64) -> (n: usize)
    requires
        ceil_div(total_clusters as int, 2) * 8 <= usize::MAX,
    ensures
        n == ceil_div(total_clusters as int, 2) * 8,
{
    (div_up(total_clusters, 2) as usize) * 8
}

/// The blocks that a physical cluster takes.
pub open spec fn block_span(p: PclusterView) -> int {
    if p.head {
        1
    } else {
        p.n as int
    }
}

/// The blocks that physical clusters take.
pub open spec fn block_total(pcls: Seq<PclusterView>) -> int
    decreases pcls.len(),
{
    if pcls.len() == 0 {
        0
    } else {
        block_total(pcls.drop_last()) + block_span(pcls.last())
    }
}

/// For each index entry the block of its physical cluster, the clusters
/// standing from block `first` on: a group shares one block.
pub open spec fn entry_blocks(pcls: Seq<PclusterView>, first: int) -> Seq<int>
    decreases pcls.len(),
{
    if pcls.len() == 0 {
        Seq::empty()
    } else {
        let p = pcls.last();
        let at = first + block_total(pcls.drop_last());
        entry_blocks(pcls.drop_last(), first) + Seq::new(
            p.n as nat,
            |k: int|
                if p.head {
                    at
                } else {
                    at + k
                },
        )
    }
}

/// The largest blocks whose clusters have an index: the words of one hold a
/// value of as many bits as a block has, and a kind of two.
pub const MAX_PACKED_BLOCK: u64 = 16384;

/// The bits of a word of an index that hold the value of an entry, with
/// blocks of the given size.
pub open spec fn value_bits(block_size: int) -> u32 {
    if block_size <= 4096 {
        12
    } else if block_size <= 8192 {
        13
    } else {
        14
    }
}

/// Counts the bits that hold the value of an entry.
pub fn count_value_bits(block_size: u64) -> (n: u32)
    ensures
        n == value_bits(block_size as int),
        12 <= n <= 14,
{
    if block_size <= 4096 {
        12
    } else if block_size <= 8192 {
        13
    } else {
        14
    }
}

/// The two bytes of an index entry, with its value in the lowest `low` bits.
pub open spec fn entry_word(e: (u8, u16), low: u32) -> u16 {
    (((e.0 as u32) << low) | (e.1 as u32)) as u16
}

/// The anchor of the pack of the given index: the block in front of the
/// first one of the pack.
pub open spec fn pack_anchor(blocks: Seq<int>, first: int, pack: int) -> u32 {
    let block = if pack * 2 < blocks.len() {
        blocks[pack * 2]
    } else {
        first
    };
    (if block > 0 {
        block - 1
    } else {
        0
    }) as u32
}

/// The bytes of the pack of the given index.
pub open spec fn pack_bytes(
    entries: Seq<(u8, u16)>,
    blocks: Seq<int>,
    first: int,
    pack: int,
    low: u32,
) -> Seq<u8> {
    bytes16(entry_word(entries[pack * 2], low)) + bytes16(
        if pack * 2 + 1 < entries.len() {
            entry_word(entries[pack * 2 + 1], low)
        } else {
            0
        },
    ) + bytes32(pack_anchor(blocks, first, pack))
}

/// The bytes of the first `n` packs.
pub open spec fn packs_bytes(
    entries: Seq<(u8, u16)>,
    blocks: Seq<int>,
    first: int,
    n: int,
    low: u32,
) -> Seq<u8>
    decreases n,
{
    if n <= 0 {
        Seq::empty()
    } else {
        packs_bytes(entries, blocks, first, n - 1, low) + pack_bytes(entries, blocks, first, n - 1, low)
    }
}

/// The index of physical clusters that stand from block `first` on.
pub open spec fn encoded_index(pcls: Seq<PclusterView>, first: int, low: u32) -> Seq<u8> {
    let entries = entries_of(pcls);
    packs_bytes(entries, entry_blocks(pcls, first), first, ceil_div(entries.len() as int, 2), low)
}

proof fn block_total_grows(pcls: Seq<PclusterView>, i: int)
    requires
        0 <= i <= pcls.len(),
    ensures
        0 <= block_total(pcls.take(i)) <= block_total(pcls),
    decreases pcls.len(),
{
    if i == pcls.len() {
        assert(pcls.take(i) =~= pcls);
        if pcls.len() > 0 {
            block_total_grows(pcls.drop_last(), i - 1);
        }
    } else {
        block_total_grows(pcls.drop_last(), i);
        assert(pcls.drop_last().take(i) =~= pcls.take(i));
    }
}

fn list_blocks(pclusters: &[Pcluster], first_block: u64) -> (r: (Vec<u64>, u64))
    requires
        first_block + block_total(pcl_views(pclusters@)) <= u64::MAX,
    ensures
        r.0@.len() == entry_blocks(pcl_views(pclusters@), first_block as int).len(),
        forall|k: int|
            0 <= k < r.0@.len() ==> #[trigger] r.0@[k] == entry_blocks(
                pcl_views(pclusters@),
                first_block as int,
            )[k],
        r.1 == block_total(pcl_views(pclusters@)),
{
    let ghost views = pcl_views(pclusters@);
    let mut blocks: Vec<u64> = Vec::new();
    let mut used: u64 = 0;
    let mut i: usize = 0;
    assert(views.take(0) =~= Seq::empty());
    while i < pclusters.len()
        invariant
            i <= pclusters.len(),
            views == pcl_views(pclusters@),
            first_block + block_total(views) <= u64::MAX,
            used == block_total(views.take(i as int)),
            blocks@.len() == entry_blocks(views.take(i as int), first_block as int).len(),
            forall|k: int|
                0 <= k < blocks@.len() ==> #[trigger] blocks@[k] == entry_blocks(
                    views.take(i as int),
                    first_block as int,
                )[k],
        decreases pclusters.len() - i,
    {
        let ghost before = blocks@;
        let p = &pclusters[i];
        let n = p.n_clusters;
        let head = p.head;
        proof {
            let next = views.take(i + 1);
            assert(next.drop_last() =~= views.take(i as int));
            assert(next.last() == p@);
            block_total_grows(views, i + 1);
        }
        let at = first_block + used;
        let mut k: u32 = 0;
        while k < n
            invariant
                k <= n,
                !head ==> at + n <= u64::MAX,
                blocks@.len() == before.len() + k,
                forall|j: int| 0 <= j < before.len() ==> blocks@[j] == before[j],
                forall|j: int|
                    0 <= j < k ==> #[trigger] blocks@[before.len() + j] == (if head {
                        at as int
                    } else {
                        at + j
                    }),
            decreases n - k,
        {
            if head {
                blocks.push(at);
            } else {
                blocks.push(at + k as u64);
            }
            k += 1;
        }
        proof {
            let next = entry_blocks(views.take(i + 1), first_block as int);
            let prior = entry_blocks(views.take(i as int), first_block as int);
            assert(views.take(i + 1).drop_last() =~= views.take(i as int));
            assert(views.take(i + 1).last() == p@);
            assert(next.len() == prior.len() + n);
            assert forall|j: int| 0 <= j < blocks@.len() implies #[trigger] blocks@[j] == next[j] by {
                if j >= before.len() {
                    let k = j - before.len();
                    assert(blocks@[before.len() + k] == (if head {
                        at as int
                    } else {
                        at + k
                    }));
                    assert(next[j] == (if head {
                        at as int
                    } else {
                        at + k
                    }));
                } else {
                    assert(blocks@[j] == before[j]);
                    assert(before[j] == prior[j]);
                }
            }
        }
        used = used + (if head {
            1
        } else {
            n as u64
        });
        i += 1;
    }
    assert(views.take(i as int) =~= views);
    (blocks, used)
}

/// Encode an ordered run of physical clusters into its index and count its
/// blocks, with blocks of up to 4096 bytes. `first_block` is the block of the
/// first cluster; the clusters must stand in consecutive blocks.
pub fn encode_pclusters(pclusters: &[Pcluster], first_block: u64) -> (r: (Vec<u8>, u64))
    requires
        first_block + block_total(pcl_views(pclusters@)) <= u64::MAX,
    ensures
        r.0@ == encoded_index(pcl_views(pclusters@), first_block as int, 12),
        r.1 == block_total(pcl_views(pclusters@)),
{
    encode_index(pclusters, first_block, 12)
}

/// Encode an ordered run of physical clusters into its index, with the value
/// of each entry in the lowest `low` bits of its word, and count its blocks.
pub fn encode_index(pclusters: &[Pcluster], first_block: u64, low: u32) -> (r: (Vec<u8>, u64))
    requires
        12 <= low <= 14,
        first_block + block_total(pcl_views(pclusters@)) <= u64::MAX,
    ensures
        r.0@ == encoded_index(pcl_views(pclusters@), first_block as int, low),
        r.1 == block_total(pcl_views(pclusters@)),
{
    let entries = index_entries(pclusters);
    let (blocks, used) = list_blocks(pclusters, first_block);
    let ghost first = first_block as int;
    let ghost eb = entry_blocks(pcl_views(pclusters@), first);
    let mut out: Vec<u8> = Vec::new();
    let packs = entries.len() / 2 + entries.len() % 2;
    let mut pack: usize = 0;
    while pack < packs
        invariant
            pack <= packs,
            packs == entries.len() / 2 + entries.len() % 2,
            first == first_block,
            12 <= low <= 14,
            blocks@.len() == eb.len(),
            forall|k: int| 0 <= k < blocks@.len() ==> #[trigger] blocks@[k] == eb[k],
            out@ == packs_bytes(entries@, eb, first, pack as int, low),
        decreases packs - pack,
    {
        let at = pack * 2;
        let ghost before = out@;
        let e = entries[at];
        push16(&mut out, (((e.0 as u32) << low) | (e.1 as u32)) as u16);
        if at + 1 < entries.len() {
            let e = entries[at + 1];
            push16(&mut out, (((e.0 as u32) << low) | (e.1 as u32)) as u16);
        } else {
            push16(&mut out, 0);
        }
        let block = if at < blocks.len() {
            blocks[at]
        } else {
            first_block
        };
        push32(&mut out, block.saturating_sub(1) as u32);
        assert(out@ =~= before + pack_bytes(entries@, eb, first, pack as int, low));
        pack += 1;
    }
    (out, used)
}

/// The map header of a compressed file: reserved, advise, algorithm and
/// cluster bits.
pub open spec fn header_of(algo: Algo) -> Seq<u8> {
    seq![0u8, 0, 0, 0, 0, 0, algo.id(), 0]
}

/// 8-byte map header of a compressed file.
pub fn map_header(algo: Algo) -> (header: [u8; 8])
    ensures
        header@ == header_of(algo),
{
    let header: [u8; 8] = [0, 0, 0, 0, 0, 0, algo.nibble(), 0];
    assert(header@ =~= header_of(algo));
    header
}

} // verus!
