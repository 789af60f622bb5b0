//! What a fresh ext4 image holds once it is written: no part of it
//! overwrites another.
use super::blocks::Volume;
use super::ext4_build::{
    dir_part, dir_writes, inode_is_inside, inode_offset, leaf_writes, node_writes, nodes_writes,
    well_numbered, with_contents, with_extents,
};
use super::ext4_groups::{
    block_flags, descriptors, ext4_super, first_places, flags_bytes, group_bounds, group_writes,
    groups_writes, inode_flags, Census, Geometry,
};
use super::ext4_inode::{inode_bytes, is_short_link, leaf_bytes, leaves_match, Extents};
use super::ext4_laws::inode_map;
use super::ext4_place::Placed;
use super::ext4_space_laws::{
    ascending_block_bounds, ascending_block_order, ascending_blocks, ascending_bounds,
    ascending_order, blocks_avoid, clear, consecutive_bounds, placed_size, well_placed,
};
use super::extent_laws::{map_length, short_extents};
use super::fresh_laws::{
    apart, holds, laid_is_there, laid_stays_apart, write_survives, writes_stay_apart,
};
use super::node::NodeView;
use super::patch::PatchView;
use super::read_back::sized;
use super::rebuild::moved;
use super::store::{laid_all, laid_all_joins};
use crate::fs::ext4::Superblock;
use crate::math::{ceil_div, ceil_div_covers, least};
use vstd::prelude::*;

verus! {

// ---------------------------------------------------------------------
// Zones
// ---------------------------------------------------------------------
/// Blocks that are not reserved lie in front of the metadata of a group or
/// behind it.
pub proof fn groups_are_apart(x: Geometry, g: int, at: int, n: int)
    requires
        x.wf(),
        x.roomy(),
        0 <= g < x.groups(),
        0 < n,
        clear(x.reserved(), at, n),
    ensures
        at + n <= x.start(g) || x.start(g) + x.overhead() <= at,
{
    if at < x.start(g) + x.overhead() && x.start(g) < at + n {
        group_bounds(x, g);
        let bpg = x.blocks_per_group as int;
        let b = if at < x.start(g) {
            x.start(g)
        } else {
            at
        };
        let r = b - x.start(g);
        assert(b - x.first() == g * bpg + r);
        vstd::arithmetic::div_mod::lemma_fundamental_div_mod_converse(b - x.first(), bpg, g, r);
        assert(!x.reserved()[b]);
    }
}

/// The metadata of two groups lie apart.
proof fn groups_follow(x: Geometry, g: int, h: int)
    requires
        x.wf(),
        x.roomy(),
        0 <= g < h < x.groups(),
    ensures
        x.start(g) + x.overhead() <= x.start(h),
{
    group_bounds(x, g);
    let bpg = x.blocks_per_group as int;
    assert(g * bpg + bpg <= h * bpg) by (nonlinear_arith)
        requires
            g + 1 <= h,
            0 < bpg,
    ;
}

/// Bytes in blocks that follow each other follow each other.
pub proof fn blocks_follow(a: int, b: int, bs: int)
    requires
        a <= b,
        0 < bs,
    ensures
        a * bs <= b * bs,
{
    assert(a * bs <= b * bs) by (nonlinear_arith)
        requires
            a <= b,
            0 < bs,
    ;
}

/// A region in the metadata of a group and one in blocks that are not
/// reserved lie apart.
pub proof fn metadata_is_apart(x: Geometry, g: int, at: int, n: int, p: int, len: int)
    requires
        x.wf(),
        x.roomy(),
        0 <= g < x.groups(),
        0 < n,
        clear(x.reserved(), at, n),
        x.start(g) * x.block <= p,
        p + len <= (x.start(g) + x.overhead()) * x.block,
    ensures
        p + len <= at * x.block || (at + n) * x.block <= p,
{
    groups_are_apart(x, g, at, n);
    let bs = x.block as int;
    if at + n <= x.start(g) {
        blocks_follow(at + n, x.start(g), bs);
    } else {
        blocks_follow(x.start(g) + x.overhead(), at, bs);
    }
}

// ---------------------------------------------------------------------
// Inodes
// ---------------------------------------------------------------------
/// The group of an inode.
pub open spec fn inode_group(x: Geometry, nid: u64) -> int {
    (nid - 1) / (x.inodes_per_group as int)
}

/// An inode lies in the table of its group.
pub proof fn inode_is_in_its_table(x: Geometry, list: Seq<NodeView>, k: int)
    requires
        x.wf(),
        x.roomy(),
        well_numbered(list, x),
        0 <= k < list.len(),
    ensures
        0 <= inode_group(x, list[k].nid) < x.groups(),
        x.table(inode_group(x, list[k].nid)) * x.block <= inode_offset(x, list[k].nid),
        inode_offset(x, list[k].nid) + x.inode_size <= (x.start(inode_group(x, list[k].nid))
            + x.overhead()) * x.block,
        x.start(inode_group(x, list[k].nid)) * x.block <= x.table(inode_group(x, list[k].nid))
            * x.block,
        0 <= x.start(inode_group(x, list[k].nid)) * x.block,
{
    inode_is_inside(x, list, k);
    let g = inode_group(x, list[k].nid);
    let ipg = x.inodes_per_group as int;
    let i = (list[k].nid - 1) % ipg;
    let isz = x.inode_size as int;
    let bs = x.block as int;
    group_bounds(x, g);
    let t = x.table_blocks();
    ceil_div_covers(x.inodes_per_group * x.inode_size, bs);
    assert(0 <= i * isz && i * isz + isz <= x.inodes_per_group * x.inode_size) by (nonlinear_arith)
        requires
            0 <= i,
            i + 1 <= x.inodes_per_group,
            isz == x.inode_size,
            0 < isz,
    ;
    let end = x.start(g) + x.overhead();
    assert(end * bs == x.table(g) * bs + t * bs) by (nonlinear_arith)
        requires
            end == x.table(g) + t,
    ;
    assert(0 <= x.groups() * 32) by (nonlinear_arith)
        requires
            0 <= x.groups(),
    ;
    ceil_div_covers(x.groups() * 32, bs);
    blocks_follow(x.start(g), x.table(g), bs);
    blocks_follow(0, x.start(g), bs);
}

/// The inodes of two nodes lie apart.
pub proof fn inodes_are_apart(x: Geometry, list: Seq<NodeView>, k: int, j: int)
    requires
        x.wf(),
        x.roomy(),
        well_numbered(list, x),
        0 <= k < list.len(),
        0 <= j < list.len(),
        list[k].nid != list[j].nid,
    ensures
        inode_offset(x, list[k].nid) + x.inode_size <= inode_offset(x, list[j].nid) || inode_offset(
            x,
            list[j].nid,
        ) + x.inode_size <= inode_offset(x, list[k].nid),
{
    inode_is_inside(x, list, k);
    inode_is_inside(x, list, j);
    inode_is_in_its_table(x, list, k);
    inode_is_in_its_table(x, list, j);
    let ipg = x.inodes_per_group as int;
    let isz = x.inode_size as int;
    let g = inode_group(x, list[k].nid);
    let h = inode_group(x, list[j].nid);
    let a = (list[k].nid - 1) % ipg;
    let b = (list[j].nid - 1) % ipg;
    if g < h {
        groups_follow(x, g, h);
        blocks_follow(x.start(g) + x.overhead(), x.start(h), x.block as int);
    } else if h < g {
        groups_follow(x, h, g);
        blocks_follow(x.start(h) + x.overhead(), x.start(g), x.block as int);
    } else if a < b {
        assert(a * isz + isz <= b * isz) by (nonlinear_arith)
            requires
                a + 1 <= b,
                0 < isz,
        ;
    } else {
        assert(a != b);
        assert(b * isz + isz <= a * isz) by (nonlinear_arith)
            requires
                b + 1 <= a,
                0 < isz,
        ;
    }
}

// ---------------------------------------------------------------------
// Nodes
// ---------------------------------------------------------------------
/// The content of a node lies in the blocks from `m0` up to `m1`, and the
/// leaves of its extent tree in those from `l0` up to `l1`.
pub open spec fn node_spread(
    x: Geometry,
    n: NodeView,
    q: Placed,
    m0: int,
    m1: int,
    l0: int,
    l1: int,
) -> bool {
    &&& n.is_dir() ==> well_placed(n, q, x.block as int, x.reserved(), m0, m1)
    &&& q.size == placed_size(n, x.block as int)
    &&& short_extents(q.extents)
    &&& leaves_match(q.extents, q.leaves, x.block as int)
    &&& ascending_blocks(q.leaves, l0, l1)
    &&& blocks_avoid(q.leaves, x.reserved())
}

/// The files of an image have blocks of their own, one file behind the other.
#[verifier::opaque]
pub open spec fn files_spread(
    x: Geometry,
    list: Seq<NodeView>,
    p: Seq<Placed>,
    m: Seq<int>,
) -> bool {
    forall|k: int|
        0 <= k < list.len() && !list[k].is_dir() ==> well_placed(
            list[k],
            #[trigger] p[k],
            x.block as int,
            x.reserved(),
            m[k],
            m[k + 1],
        )
}

/// The blocks of a file of its own are well placed.
pub proof fn file_is_well_placed(
    x: Geometry,
    list: Seq<NodeView>,
    p: Seq<Placed>,
    m: Seq<int>,
    k: int,
)
    requires
        files_spread(x, list, p, m),
        0 <= k < list.len(),
        !list[k].is_dir(),
    ensures
        well_placed(list[k], p[k], x.block as int, x.reserved(), m[k], m[k + 1]),
{
    reveal(files_spread);
}

/// The nodes of an image, one behind the other: `m` says where the content
/// of each starts, and `l` where the leaves of its extent tree do.
#[verifier::opaque]
pub open spec fn spread(
    x: Geometry,
    list: Seq<NodeView>,
    p: Seq<Placed>,
    m: Seq<int>,
    l: Seq<int>,
) -> bool {
    &&& x.wf()
    &&& x.roomy()
    &&& well_numbered(list, x)
    &&& forall|i: int, j: int|
        0 <= i < j < list.len() ==> (#[trigger] list[i]).nid != (#[trigger] list[j]).nid
    &&& p.len() == list.len()
    &&& m.len() == list.len() + 1
    &&& l.len() == list.len() + 1
    &&& forall|k: int|
        0 <= k < list.len() ==> node_spread(
            x,
            list[k],
            #[trigger] p[k],
            m[k],
            m[k + 1],
            l[k],
            l[k + 1],
        )
    &&& forall|i: int, j: int|
        0 <= i <= j < m.len() ==> #[trigger] m[i] <= #[trigger] m[j]
    &&& forall|i: int, j: int|
        0 <= i <= j < l.len() ==> #[trigger] l[i] <= #[trigger] l[j]
    &&& m[m.len() - 1] <= l[0]
}

/// What is known of one node.
pub proof fn spread_node(
    x: Geometry,
    list: Seq<NodeView>,
    p: Seq<Placed>,
    m: Seq<int>,
    l: Seq<int>,
    k: int,
)
    requires
        spread(x, list, p, m, l),
        0 <= k < list.len(),
    ensures
        x.wf(),
        x.roomy(),
        well_numbered(list, x),
        p.len() == list.len(),
        node_spread(x, list[k], p[k], m[k], m[k + 1], l[k], l[k + 1]),
        m[k + 1] <= l[0] <= l[k],
        1024 <= x.block <= 65536,
{
    reveal(spread);
}

/// What is known of two nodes.
pub proof fn spread_pair(
    x: Geometry,
    list: Seq<NodeView>,
    p: Seq<Placed>,
    m: Seq<int>,
    l: Seq<int>,
    k: int,
    j: int,
)
    requires
        spread(x, list, p, m, l),
        0 <= k < j < list.len(),
    ensures
        list[k].nid != list[j].nid,
        m[k + 1] <= m[j],
        l[k + 1] <= l[j],
{
    reveal(spread);
}

/// A region lies apart from the leaves of a node and, for a directory, from
/// its content.
pub open spec fn beside(x: Geometry, n: NodeView, q: Placed, at: int, len: int) -> bool {
    &&& forall|i: int|
        0 <= i < q.leaves.len() ==> at + len <= (#[trigger] q.leaves[i]) * x.block || (q.leaves[i]
            + 1) * x.block <= at
    &&& n.is_dir() ==> content_apart(x, q, at, len)
}

/// A region lies apart from the content of a node.
pub open spec fn content_apart(x: Geometry, q: Placed, at: int, len: int) -> bool {
    forall|i: int|
        0 <= i < q.extents.len() ==> at + len <= (#[trigger] q.extents[i]).1 * x.block || (
        q.extents[i].1 + q.extents[i].2) * x.block <= at
}

proof fn beside_metadata(
    x: Geometry,
    n: NodeView,
    q: Placed,
    m0: int,
    m1: int,
    l0: int,
    l1: int,
    g: int,
    at: int,
    len: int,
)
    requires
        x.wf(),
        x.roomy(),
        node_spread(x, n, q, m0, m1, l0, l1),
        0 <= g < x.groups(),
        x.start(g) * x.block <= at,
        at + len <= (x.start(g) + x.overhead()) * x.block,
    ensures
        beside(x, n, q, at, len),
{
    assert forall|i: int| 0 <= i < q.leaves.len() implies at + len <= (#[trigger] q.leaves[i])
        * x.block || (q.leaves[i] + 1) * x.block <= at by {
        metadata_is_apart(x, g, q.leaves[i] as int, 1, at, len);
    }
    if n.is_dir() {
        content_beside_metadata(x, n, q, m0, m1, g, at, len);
    }
}

/// The metadata of a group lies apart from content.
proof fn content_beside_metadata(
    x: Geometry,
    n: NodeView,
    q: Placed,
    m0: int,
    m1: int,
    g: int,
    at: int,
    len: int,
)
    requires
        x.wf(),
        x.roomy(),
        well_placed(n, q, x.block as int, x.reserved(), m0, m1),
        0 <= g < x.groups(),
        x.start(g) * x.block <= at,
        at + len <= (x.start(g) + x.overhead()) * x.block,
    ensures
        content_apart(x, q, at, len),
{
    assert forall|i: int| 0 <= i < q.extents.len() implies at + len <= (#[trigger] q.extents[i]).1
        * x.block || (q.extents[i].1 + q.extents[i].2) * x.block <= at by {
        let size = if !n.is_dir() && is_short_link(n) {
            0
        } else {
            ceil_div(q.size, x.block as int)
        };
        consecutive_bounds(q.extents, 0, size, i);
        metadata_is_apart(x, g, q.extents[i].1 as int, q.extents[i].2 as int, at, len);
    }
}

/// What a node writes lies beside blocks that belong to others.
pub proof fn beside_interval(
    x: Geometry,
    n: NodeView,
    q: Placed,
    m0: int,
    m1: int,
    l0: int,
    l1: int,
    lo: int,
    hi: int,
    at: int,
    len: int,
)
    requires
        x.wf(),
        node_spread(x, n, q, m0, m1, l0, l1),
        lo * x.block <= at,
        at + len <= hi * x.block,
        n.is_dir() ==> hi <= m0 || m1 <= lo,
        hi <= l0 || l1 <= lo,
    ensures
        beside(x, n, q, at, len),
{
    let bs = x.block as int;
    assert forall|i: int| 0 <= i < q.leaves.len() implies at + len <= (#[trigger] q.leaves[i])
        * x.block || (q.leaves[i] + 1) * x.block <= at by {
        ascending_block_bounds(q.leaves, l0, l1, i);
        if hi <= l0 {
            blocks_follow(hi, q.leaves[i] as int, bs);
        } else {
            blocks_follow(q.leaves[i] + 1, lo, bs);
        }
    }
    if n.is_dir() {
        content_beside(x, n, q, m0, m1, lo, hi, at, len);
    }
}

proof fn leaf_writes_count(q: Placed, block: int, n: int)
    requires
        0 <= n,
    ensures
        leaf_writes(q, block, n).len() == n,
    decreases n,
{
    if n > 0 {
        leaf_writes_count(q, block, n - 1);
    }
}

proof fn dir_writes_count(q: Placed, block: int, n: int)
    requires
        0 <= n,
    ensures
        dir_writes(q, block, n).len() == n,
    decreases n,
{
    if n > 0 {
        dir_writes_count(q, block, n - 1);
    }
}

/// The writes of the leaves of an extent tree, one by one.
pub proof fn leaf_writes_at(q: Placed, block: int, n: int, i: int)
    requires
        0 <= i < n,
    ensures
        leaf_writes(q, block, n).len() == n,
        leaf_writes(q, block, n)[i] == (PatchView {
            at: q.leaves[i] * block,
            data: leaf_bytes(q.extents, block, i),
        }),
    decreases n,
{
    leaf_writes_count(q, block, n);
    leaf_writes_count(q, block, n - 1);
    if i < n - 1 {
        leaf_writes_at(q, block, n - 1, i);
    }
}

/// The writes of a directory, one by one.
pub proof fn dir_writes_at(q: Placed, block: int, n: int, i: int)
    requires
        0 <= i < n,
    ensures
        dir_writes(q, block, n).len() == n,
        dir_writes(q, block, n)[i] == (PatchView {
            at: q.extents[i].1 * block,
            data: dir_part(q.data, q.extents[i], block),
        }),
    decreases n,
{
    dir_writes_count(q, block, n);
    dir_writes_count(q, block, n - 1);
    if i < n - 1 {
        dir_writes_at(q, block, n - 1, i);
    }
}

/// A leaf fits into its block.
pub proof fn leaf_fits(s: Extents, leaves: Seq<u32>, block: int, i: int)
    requires
        1024 <= block <= 65536,
        leaves_match(s, leaves, block),
        0 <= i < leaves.len(),
    ensures
        12 <= leaf_bytes(s, block, i).len() <= block,
{
    super::extent_laws::leaf_bounds(s.len() as int, block, i);
    super::ext4_inode::extents_length(super::ext4_inode::leaf_extents(s, block, i));
}

/// The part of a directory that an extent maps fills its blocks.
pub proof fn dir_part_fits(data: Seq<u8>, e: (u32, u32, u32), block: int)
    requires
        0 < block,
    ensures
        dir_part(data, e, block).len() <= e.2 * block,
        (e.0 + e.2) * block <= data.len() ==> dir_part(data, e, block).len() == e.2 * block,
{
    assert(0 <= e.0 * block && (e.0 + e.2) * block == e.0 * block + e.2 * block && 0 <= e.2 * block)
        by (nonlinear_arith)
        requires
            0 < block,
            0 <= e.0,
            0 <= e.2,
    ;
}

/// An inode has its length.
pub proof fn inode_length(x: Geometry, n: NodeView, q: Placed)
    requires
        x.wf(),
        leaves_match(q.extents, q.leaves, x.block as int),
    ensures
        inode_map(n, q.extents, q.leaves, x.block as int).len() == 60,
        inode_bytes(
            n,
            q.size,
            q.extents,
            q.leaves,
            x.block as int,
            x.inode_size as int,
        ).len() == x.inode_size,
{
    map_length(q.extents, q.leaves, x.block as int);
    super::ext4_laws::inode_splits(
        n,
        q.size,
        q.extents,
        q.leaves,
        x.block as int,
        x.inode_size as int,
    );
}

/// The writes of a node stay apart from a region that its parts stay apart
/// from.
pub proof fn node_writes_apart(x: Geometry, list: Seq<NodeView>, q: Placed, k: int, at: int, len: int)
    requires
        x.wf(),
        x.roomy(),
        well_numbered(list, x),
        0 <= k < list.len(),
        leaves_match(q.extents, q.leaves, x.block as int),
        beside(x, list[k], q, at, len),
        inode_offset(x, list[k].nid) + x.inode_size <= at || at + len <= inode_offset(
            x,
            list[k].nid,
        ),
    ensures
        apart(node_writes(x, list[k], q), at, len),
{
    let n = list[k];
    let w = node_writes(x, n, q);
    inode_length(x, n, q);
    inode_is_in_its_table(x, list, k);
    own_rest_is_apart(x, n, q, at, len, 1);
    assert forall|i: int| 0 <= i < w.len() implies (#[trigger] w[i]).at >= 0 && (w[i].at
        + w[i].data.len() <= at || at + len <= w[i].at) by {
        if i > 0 {
            assert(w.skip(1)[i - 1] == w[i]);
        }
    }
}

proof fn leaf_write_apart(x: Geometry, q: Placed, i: int, at: int, len: int)
    requires
        x.wf(),
        leaves_match(q.extents, q.leaves, x.block as int),
        0 <= i < q.leaves.len(),
        at + len <= q.leaves[i] * x.block || (q.leaves[i] + 1) * x.block <= at,
    ensures
        ({
            let w = leaf_writes(q, x.block as int, q.leaves.len() as int)[i];
            w.at >= 0 && (w.at + w.data.len() <= at || at + len <= w.at)
        }),
{
    let bs = x.block as int;
    leaf_writes_at(q, bs, q.leaves.len() as int, i);
    leaf_fits(q.extents, q.leaves, bs, i);
    blocks_follow(0, q.leaves[i] as int, bs);
    assert((q.leaves[i] + 1) * bs == q.leaves[i] * bs + bs) by (nonlinear_arith);
}

proof fn dir_write_apart(x: Geometry, q: Placed, i: int, at: int, len: int)
    requires
        x.wf(),
        0 <= i < q.extents.len(),
        at + len <= q.extents[i].1 * x.block || (q.extents[i].1 + q.extents[i].2) * x.block <= at,
    ensures
        ({
            let w = dir_writes(q, x.block as int, q.extents.len() as int)[i];
            w.at >= 0 && (w.at + w.data.len() <= at || at + len <= w.at)
        }),
{
    let bs = x.block as int;
    dir_writes_at(q, bs, q.extents.len() as int, i);
    let e = q.extents[i];
    dir_part_fits(q.data, e, bs);
    blocks_follow(0, e.1 as int, bs);
    assert((e.1 + e.2) * bs == e.1 * bs + e.2 * bs) by (nonlinear_arith);
}

/// What stands apart from every node stays while the first `k` are written.
pub proof fn nodes_spare(
    s: Seq<u8>,
    x: Geometry,
    list: Seq<NodeView>,
    p: Seq<Placed>,
    k: int,
    from: int,
    at: int,
    y: Seq<u8>,
)
    requires
        0 <= from <= k <= list.len(),
        forall|j: int|
            from <= j < k ==> apart(#[trigger] node_writes(x, list[j], p[j]), at, y.len() as int),
        holds(laid_all(s, nodes_writes(x, list, p, from)), at, y),
    ensures
        holds(laid_all(s, nodes_writes(x, list, p, k)), at, y),
    decreases k,
{
    if from < k {
        nodes_spare(s, x, list, p, k - 1, from, at, y);
        let before = nodes_writes(x, list, p, k - 1);
        let w = node_writes(x, list[k - 1], p[k - 1]);
        laid_all_joins(s, before, w);
        writes_stay_apart(laid_all(s, before), w, at, y);
    }
}

/// The inode of every node arrives.
pub proof fn inodes_arrive(
    s: Seq<u8>,
    x: Geometry,
    list: Seq<NodeView>,
    p: Seq<Placed>,
    m: Seq<int>,
    l: Seq<int>,
    k: int,
)
    requires
        spread(x, list, p, m, l),
        0 <= k < list.len(),
    ensures
        holds(
            laid_all(s, nodes_writes(x, list, p, list.len() as int)),
            inode_offset(x, list[k].nid),
            inode_bytes(
                list[k],
                p[k].size,
                p[k].extents,
                p[k].leaves,
                x.block as int,
                x.inode_size as int,
            ),
        ),
{
    let n = list[k];
    let q = p[k];
    let bs = x.block as int;
    spread_node(x, list, p, m, l, k);
    inode_is_in_its_table(x, list, k);
    inode_length(x, n, q);
    let at = inode_offset(x, n.nid);
    let y = inode_bytes(n, q.size, q.extents, q.leaves, bs, x.inode_size as int);
    let g = inode_group(x, n.nid);
    let w = node_writes(x, n, q);
    let before = nodes_writes(x, list, p, k);
    beside_metadata(x, n, q, m[k], m[k + 1], l[k], l[k + 1], g, at, y.len() as int);
    own_rest_is_apart(x, n, q, at, y.len() as int, 1);
    write_survives(laid_all(s, before), w, 0);
    laid_all_joins(s, before, w);
    assert(nodes_writes(x, list, p, k + 1) == before + w);
    assert forall|j: int| k + 1 <= j < list.len() implies apart(
        #[trigger] node_writes(x, list[j], p[j]),
        at,
        y.len() as int,
    ) by {
        spread_node(x, list, p, m, l, j);
        spread_pair(x, list, p, m, l, k, j);
        inodes_are_apart(x, list, k, j);
        beside_metadata(x, list[j], p[j], m[j], m[j + 1], l[j], l[j + 1], g, at, y.len() as int);
        node_writes_apart(x, list, p[j], j, at, y.len() as int);
    }
    nodes_spare(s, x, list, p, list.len() as int, k + 1, at, y);
}

/// The writes of a node from the one with index `from` on stay apart from a
/// region that its leaves and its content stay apart from.
proof fn own_rest_is_apart(x: Geometry, n: NodeView, q: Placed, at: int, len: int, from: int)
    requires
        x.wf(),
        leaves_match(q.extents, q.leaves, x.block as int),
        1 <= from <= node_writes(x, n, q).len(),
        forall|i: int|
            from - 1 <= i < q.leaves.len() ==> at + len <= (#[trigger] q.leaves[i]) * x.block || (
            q.leaves[i] + 1) * x.block <= at,
        n.is_dir() ==> forall|i: int|
            from - 1 - q.leaves.len() <= i && 0 <= i < q.extents.len() ==> at + len <= (
            #[trigger] q.extents[i]).1 * x.block || (q.extents[i].1 + q.extents[i].2) * x.block
                <= at,
    ensures
        apart(node_writes(x, n, q).skip(from), at, len),
{
    let bs = x.block as int;
    let w = node_writes(x, n, q);
    let leaves = leaf_writes(q, bs, q.leaves.len() as int);
    let dirs = if n.is_dir() {
        dir_writes(q, bs, q.extents.len() as int)
    } else {
        Seq::empty()
    };
    let v = w.skip(from);
    leaf_writes_count(q, bs, q.leaves.len() as int);
    dir_writes_count(q, bs, q.extents.len() as int);
    assert forall|i: int| 0 <= i < v.len() implies (#[trigger] v[i]).at >= 0 && (v[i].at
        + v[i].data.len() <= at || at + len <= v[i].at) by {
        let o = from + i;
        assert(v[i] == w[o]);
        if o - 1 < leaves.len() {
            let j = o - 1;
            assert(w[o] == leaves[j]);
            leaf_write_apart(x, q, j, at, len);
        } else {
            let j = o - 1 - leaves.len();
            assert(w[o] == dirs[j]);
            dir_write_apart(x, q, j, at, len);
        }
    }
}

/// The leaves of every extent tree arrive.
pub proof fn leaves_arrive(
    s: Seq<u8>,
    x: Geometry,
    list: Seq<NodeView>,
    p: Seq<Placed>,
    m: Seq<int>,
    l: Seq<int>,
    k: int,
    i: int,
)
    requires
        spread(x, list, p, m, l),
        0 <= k < list.len(),
        0 <= i < p[k].leaves.len(),
    ensures
        holds(
            laid_all(s, nodes_writes(x, list, p, list.len() as int)),
            p[k].leaves[i] * x.block,
            leaf_bytes(p[k].extents, x.block as int, i),
        ),
{
    let n = list[k];
    let q = p[k];
    let bs = x.block as int;
    spread_node(x, list, p, m, l, k);
    let b = q.leaves[i] as int;
    let at = b * bs;
    let y = leaf_bytes(q.extents, bs, i);
    let len = y.len() as int;
    leaf_fits(q.extents, q.leaves, bs, i);
    leaf_writes_at(q, bs, q.leaves.len() as int, i);
    ascending_block_bounds(q.leaves, l[k], l[k + 1], i);
    blocks_follow(0, b, bs);
    assert((b + 1) * bs == at + bs) by (nonlinear_arith)
        requires
            at == b * bs,
    ;
    let w = node_writes(x, n, q);
    let before = nodes_writes(x, list, p, k);
    assert(w[1 + i] == leaf_writes(q, bs, q.leaves.len() as int)[i]);
    assert forall|j: int| i + 1 <= j < q.leaves.len() implies at + len <= (#[trigger] q.leaves[j])
        * x.block || (q.leaves[j] + 1) * x.block <= at by {
        ascending_block_order(q.leaves, l[k], l[k + 1], i, j);
        blocks_follow(b + 1, q.leaves[j] as int, bs);
    }
    if n.is_dir() {
        content_beside(x, n, q, m[k], m[k + 1], b, b + 1, at, len);
    }
    own_rest_is_apart(x, n, q, at, len, 2 + i);
    write_survives(laid_all(s, before), w, 1 + i);
    laid_all_joins(s, before, w);
    assert(nodes_writes(x, list, p, k + 1) == before + w);
    assert forall|j: int| k + 1 <= j < list.len() implies apart(
        #[trigger] node_writes(x, list[j], p[j]),
        at,
        len,
    ) by {
        spread_node(x, list, p, m, l, j);
        spread_pair(x, list, p, m, l, k, j);
        inode_is_in_its_table(x, list, j);
        let g = inode_group(x, list[j].nid);
        metadata_is_apart(x, g, b, 1, inode_offset(x, list[j].nid), x.inode_size as int);
        beside_interval(
            x,
            list[j],
            p[j],
            m[j],
            m[j + 1],
            l[j],
            l[j + 1],
            b,
            b + 1,
            at,
            len,
        );
        node_writes_apart(x, list, p[j], j, at, len);
    }
    nodes_spare(s, x, list, p, list.len() as int, k + 1, at, y);
}

/// The content of every directory arrives.
pub proof fn directories_arrive(
    s: Seq<u8>,
    x: Geometry,
    list: Seq<NodeView>,
    p: Seq<Placed>,
    m: Seq<int>,
    l: Seq<int>,
    k: int,
    i: int,
)
    requires
        spread(x, list, p, m, l),
        0 <= k < list.len(),
        list[k].is_dir(),
        p[k].data.len() % x.block as nat == 0,
        0 <= i < p[k].extents.len(),
    ensures
        holds(
            laid_all(s, nodes_writes(x, list, p, list.len() as int)),
            p[k].extents[i].1 * x.block,
            dir_part(p[k].data, p[k].extents[i], x.block as int),
        ),
        dir_part(p[k].data, p[k].extents[i], x.block as int).len() == p[k].extents[i].2 * x.block,
        (p[k].extents[i].0 + p[k].extents[i].2) * x.block <= p[k].data.len(),
{
    let n = list[k];
    let q = p[k];
    let bs = x.block as int;
    spread_node(x, list, p, m, l, k);
    let e = q.extents[i];
    let at = e.1 * bs;
    let y = dir_part(q.data, e, bs);
    let len = y.len() as int;
    let total = ceil_div(q.size, bs);
    consecutive_bounds(q.extents, 0, total, i);
    ascending_bounds(q.extents, m[k], m[k + 1], i);
    ceil_div_covers(q.size, bs);
    assert(total * bs == q.size);
    blocks_follow(e.0 + e.2, total, bs);
    dir_part_fits(q.data, e, bs);
    assert(0 < e.2 * bs) by (nonlinear_arith)
        requires
            0 < e.2,
            0 < bs,
    ;
    blocks_follow(0, e.1 as int, bs);
    assert((e.1 + e.2) * bs == at + e.2 * bs) by (nonlinear_arith)
        requires
            at == e.1 * bs,
    ;
    let w = node_writes(x, n, q);
    let before = nodes_writes(x, list, p, k);
    let c = q.leaves.len() as int;
    leaf_writes_count(q, bs, c);
    dir_writes_at(q, bs, q.extents.len() as int, i);
    assert(w[1 + c + i] == dir_writes(q, bs, q.extents.len() as int)[i]);
    assert forall|j: int| i + 1 <= j < q.extents.len() implies at + len <= (
    #[trigger] q.extents[j]).1 * x.block || (q.extents[j].1 + q.extents[j].2) * x.block <= at by {
        ascending_order(q.extents, m[k], m[k + 1], i, j);
        blocks_follow(e.1 + e.2, q.extents[j].1 as int, bs);
    }
    own_rest_is_apart(x, n, q, at, len, 2 + c + i);
    write_survives(laid_all(s, before), w, 1 + c + i);
    laid_all_joins(s, before, w);
    assert(nodes_writes(x, list, p, k + 1) == before + w);
    assert forall|j: int| k + 1 <= j < list.len() implies apart(
        #[trigger] node_writes(x, list[j], p[j]),
        at,
        len,
    ) by {
        spread_node(x, list, p, m, l, j);
        spread_pair(x, list, p, m, l, k, j);
        inode_is_in_its_table(x, list, j);
        let g = inode_group(x, list[j].nid);
        metadata_is_apart(
            x,
            g,
            e.1 as int,
            e.2 as int,
            inode_offset(x, list[j].nid),
            x.inode_size as int,
        );
        beside_interval(
            x,
            list[j],
            p[j],
            m[j],
            m[j + 1],
            l[j],
            l[j + 1],
            e.1 as int,
            e.1 + e.2,
            at,
            len,
        );
        node_writes_apart(x, list, p[j], j, at, len);
    }
    nodes_spare(s, x, list, p, list.len() as int, k + 1, at, y);
}

/// What stands in the first group in front of its inode table stays while
/// the nodes are written.
pub proof fn nodes_spare_the_first_group(
    s: Seq<u8>,
    x: Geometry,
    list: Seq<NodeView>,
    p: Seq<Placed>,
    m: Seq<int>,
    l: Seq<int>,
    at: int,
    y: Seq<u8>,
)
    requires
        spread(x, list, p, m, l),
        holds(s, at, y),
        x.start(0) * x.block <= at,
        at + y.len() <= x.table(0) * x.block,
    ensures
        holds(laid_all(s, nodes_writes(x, list, p, list.len() as int)), at, y),
{
    let len = y.len() as int;
    assert forall|j: int| 0 <= j < list.len() implies apart(
        #[trigger] node_writes(x, list[j], p[j]),
        at,
        len,
    ) by {
        spread_node(x, list, p, m, l, j);
        inode_is_in_its_table(x, list, j);
        let g = inode_group(x, list[j].nid);
        group_bounds(x, 0);
        blocks_follow(x.table(0), x.start(0) + x.overhead(), x.block as int);
        if g > 0 {
            groups_follow(x, 0, g);
            blocks_follow(x.start(0) + x.overhead(), x.start(g), x.block as int);
        }
        first_places(x);
        beside_metadata(x, list[j], p[j], m[j], m[j + 1], l[j], l[j + 1], 0, at, len);
        node_writes_apart(x, list, p[j], j, at, len);
    }
    assert(nodes_writes(x, list, p, 0) =~= Seq::empty());
    nodes_spare(s, x, list, p, list.len() as int, 0, at, y);
}

// ---------------------------------------------------------------------
// Groups
// ---------------------------------------------------------------------
/// The descriptors take 32 bytes each.
pub proof fn descriptors_length(c: Census, n: int)
    requires
        0 <= n,
    ensures
        descriptors(c, n).len() == 32 * n,
    decreases n,
{
    if n > 0 {
        descriptors_length(c, n - 1);
    }
}

/// The superblock takes 256 bytes.
pub proof fn ext4_super_length(c: Census, p: Superblock, shared: bool)
    ensures
        ext4_super(c, p, shared).len() == 256,
{
}

/// The writes of a group stay in front of its inode table.
pub proof fn group_writes_bounds(c: Census, p: Superblock, shared: bool, g: int, i: int)
    requires
        c.x.wf(),
        c.x.roomy(),
        0 <= g < c.x.groups(),
        0 <= i < 4,
    ensures
        ({
            let w = group_writes(c, p, shared, g)[i];
            &&& c.x.start(g) * c.x.block <= w.at
            &&& w.at + w.data.len() <= c.x.table(g) * c.x.block
            &&& i >= 1 ==> (c.x.start(g) + 1) * c.x.block <= w.at
            &&& i >= 2 ==> c.x.bitmap(g) * c.x.block <= w.at
            &&& i == 0 ==> w.at + w.data.len() <= (c.x.start(g) + 1) * c.x.block
            &&& i == 1 ==> w.at + w.data.len() <= c.x.bitmap(g) * c.x.block
            &&& 0 < w.data.len()
        }),
{
    let x = c.x;
    let bs = x.block as int;
    group_bounds(x, g);
    ext4_super_length(c, p, shared);
    descriptors_length(c, x.groups());
    let a = x.start(g);
    let d = x.descriptor_blocks();
    assert((a + 1) * bs == a * bs + bs && x.bitmap(g) * bs == a * bs + bs + d * bs && (x.bitmap(g)
        + 1) * bs == x.bitmap(g) * bs + bs && x.table(g) * bs == x.bitmap(g) * bs + 2 * bs && 0 <= d
        * bs) by (nonlinear_arith)
        requires
            x.bitmap(g) == a + 1 + d,
            x.table(g) == x.bitmap(g) + 2,
            0 <= d,
            0 < bs,
    ;
    assert(flags_bytes(block_flags(x, c.used, g)).len() == bs);
    assert(flags_bytes(inode_flags(x, c.inodes(), g)).len() == bs);
}

/// The superblock and the descriptors of the first group arrive.
pub proof fn first_group_arrives(s: Seq<u8>, c: Census, p: Superblock, shared: bool, n: int)
    requires
        c.x.wf(),
        c.x.roomy(),
        1 <= n <= c.x.groups(),
    ensures
        ({
            let t = laid_all(s, groups_writes(c, p, shared, n));
            &&& holds(t, 1024, ext4_super(c, p, shared))
            &&& holds(t, c.x.descriptors_at(), descriptors(c, c.x.groups()))
            &&& 1024 + 256 <= c.x.table(0) * c.x.block
            &&& c.x.descriptors_at() + 32 * c.x.groups() <= c.x.table(0) * c.x.block
        }),
    decreases n,
{
    let x = c.x;
    let bs = x.block as int;
    let before = groups_writes(c, p, shared, n - 1);
    let w = group_writes(c, p, shared, n - 1);
    let head = ext4_super(c, p, shared);
    let desc = descriptors(c, x.groups());
    ext4_super_length(c, p, shared);
    descriptors_length(c, x.groups());
    group_bounds(x, 0);
    group_writes_bounds(c, p, shared, 0, 0);
    group_writes_bounds(c, p, shared, 0, 1);
    first_places(x);
    let at = x.descriptors_at();
    laid_all_joins(s, before, w);
    if n == 1 {
        assert(before =~= Seq::empty());
        assert forall|i: int| 0 <= i < w.skip(1).len() implies (#[trigger] w.skip(1)[i]).at >= 0 && (
        w.skip(1)[i].at + w.skip(1)[i].data.len() <= 1024 || 1024 + head.len() <= w.skip(1)[i].at) by {
            group_writes_bounds(c, p, shared, 0, i + 1);
            assert(w.skip(1)[i] == w[i + 1]);
        }
        assert forall|i: int| 0 <= i < w.skip(2).len() implies (#[trigger] w.skip(2)[i]).at >= 0 && (
        w.skip(2)[i].at + w.skip(2)[i].data.len() <= at || at + desc.len() <= w.skip(2)[i].at) by {
            group_writes_bounds(c, p, shared, 0, i + 2);
            assert(w.skip(2)[i] == w[i + 2]);
        }
        write_survives(laid_all(s, before), w, 0);
        write_survives(laid_all(s, before), w, 1);
    } else {
        first_group_arrives(s, c, p, shared, n - 1);
        let end = x.table(0) * bs;
        groups_follow(x, 0, n - 1);
        blocks_follow(x.table(0), x.start(0) + x.overhead(), bs);
        blocks_follow(x.start(0) + x.overhead(), x.start(n - 1), bs);
        assert forall|i: int| 0 <= i < w.len() implies (#[trigger] w[i]).at >= end && w[i].at
            >= 0 by {
            group_writes_bounds(c, p, shared, n - 1, i);
        }
        writes_stay_apart(laid_all(s, before), w, 1024, head);
        writes_stay_apart(laid_all(s, before), w, at, desc);
    }
}

// ---------------------------------------------------------------------
// Content of files
// ---------------------------------------------------------------------
/// What an extent of a file holds: its part of the content.
pub open spec fn file_part(v: Volume, n: NodeView, e: (u32, u32, u32), block: int) -> Result<
    Seq<u8>,
    crate::error::Fault,
> {
    let to = least((e.0 + e.2) * block, n.data_size as int);
    moved(v, n, least(e.0 * block, to), to)
}

/// The part of a file that an extent maps fits into its blocks.
pub proof fn file_part_fits(v: Volume, n: NodeView, e: (u32, u32, u32), block: int)
    requires
        sized(v),
        0 < block,
    ensures
        file_part(v, n, e, block) matches Ok(x) ==> x.len() <= e.2 * block && (e.0 * block
            < n.data_size && e.2 > 0 ==> x.len() > 0),
        0 <= e.1 * block,
{
    assert(0 <= e.0 * block && (e.0 + e.2) * block == e.0 * block + e.2 * block && 0 <= e.2 * block
        && (e.2 > 0 ==> e.2 * block > 0) && 0 <= e.1 * block) by (nonlinear_arith)
        requires
            0 < block,
            0 <= e.0,
            0 <= e.1,
            0 <= e.2,
    ;
    let to = least((e.0 + e.2) * block, n.data_size as int);
    super::read_back::moved_length(v, n, least(e.0 * block, to), to);
}

/// Copying a file touches nothing but its blocks.
proof fn file_spares(
    s: Seq<u8>,
    v: Volume,
    n: NodeView,
    extents: Extents,
    block: int,
    from: int,
    k: int,
    at: int,
    y: Seq<u8>,
)
    requires
        sized(v),
        0 < block,
        0 <= from <= k <= extents.len(),
        with_extents(s, v, n, extents, block, from) matches Ok(t) ==> holds(t, at, y),
        forall|i: int|
            from <= i < k ==> at + y.len() <= (#[trigger] extents[i]).1 * block || (extents[i].1
                + extents[i].2) * block <= at,
    ensures
        with_extents(s, v, n, extents, block, k) matches Ok(t) ==> holds(t, at, y),
    decreases k,
{
    if from < k {
        file_spares(s, v, n, extents, block, from, k - 1, at, y);
        let e = extents[k - 1];
        file_part_fits(v, n, e, block);
        assert((e.1 + e.2) * block == e.1 * block + e.2 * block) by (nonlinear_arith);
        match (with_extents(s, v, n, extents, block, k - 1), file_part(v, n, e, block)) {
            (Ok(t), Ok(x)) => {
                laid_stays_apart(t, e.1 * block, x, at, y);
            },
            _ => {},
        }
    }
}

/// Copying the files touches nothing but their blocks.
pub proof fn contents_spare(
    s: Seq<u8>,
    v: Volume,
    x: Geometry,
    list: Seq<NodeView>,
    p: Seq<Placed>,
    from: int,
    k: int,
    at: int,
    y: Seq<u8>,
)
    requires
        sized(v),
        x.wf(),
        p.len() == list.len(),
        0 <= from <= k <= list.len(),
        with_contents(s, v, list, p, x.block as int, from) matches Ok(t) ==> holds(t, at, y),
        forall|j: int|
            from <= j < k && !list[j].is_dir() && !is_short_link(list[j]) ==> content_apart(
                x,
                #[trigger] p[j],
                at,
                y.len() as int,
            ),
    ensures
        with_contents(s, v, list, p, x.block as int, k) matches Ok(t) ==> holds(t, at, y),
    decreases k,
{
    if from < k {
        contents_spare(s, v, x, list, p, from, k - 1, at, y);
        let bs = x.block as int;
        let n = list[k - 1];
        let q = p[k - 1];
        match with_contents(s, v, list, p, bs, k - 1) {
            Ok(t) => {
                if !n.is_dir() && !is_short_link(n) {
                    assert(content_apart(x, q, at, y.len() as int));
                    file_spares(t, v, n, q.extents, bs, 0, q.extents.len() as int, at, y);
                }
            },
            Err(_) => {},
        }
    }
}

/// The part of a file that an extent maps arrives.
pub proof fn files_arrive(
    s: Seq<u8>,
    v: Volume,
    x: Geometry,
    list: Seq<NodeView>,
    p: Seq<Placed>,
    m: Seq<int>,
    l: Seq<int>,
    k: int,
    i: int,
)
    requires
        sized(v),
        spread(x, list, p, m, l),
        files_spread(x, list, p, m),
        0 <= k < list.len(),
        !list[k].is_dir(),
        !is_short_link(list[k]),
        0 <= i < p[k].extents.len(),
    ensures
        with_contents(s, v, list, p, x.block as int, list.len() as int) matches Ok(d) ==> {
            &&& file_part(v, list[k], p[k].extents[i], x.block as int) is Ok
            &&& holds(
                d,
                p[k].extents[i].1 * x.block,
                file_part(v, list[k], p[k].extents[i], x.block as int)->Ok_0,
            )
        },
{
    let n = list[k];
    let q = p[k];
    let bs = x.block as int;
    let count = list.len() as int;
    spread_node(x, list, p, m, l, k);
    file_is_well_placed(x, list, p, m, k);
    let e = q.extents[i];
    let total = ceil_div(q.size, bs);
    consecutive_bounds(q.extents, 0, total, i);
    ascending_bounds(q.extents, m[k], m[k + 1], i);
    ceil_div_covers(q.size, bs);
    file_part_fits(v, n, e, bs);
    assert(e.0 * bs < n.data_size) by (nonlinear_arith)
        requires
            e.0 + e.2 <= total,
            e.2 >= 1,
            total * bs < q.size + bs,
            q.size == n.data_size,
            0 < bs,
    ;
    assert((e.1 + e.2) * bs == e.1 * bs + e.2 * bs) by (nonlinear_arith);
    match with_contents(s, v, list, p, bs, count) {
        Ok(_) => {
            prefix_is_ok(s, v, list, p, bs, k + 1, count);
            let t = with_contents(s, v, list, p, bs, k)->Ok_0;
            extents_prefix_ok(t, v, n, q.extents, bs, i + 1, q.extents.len() as int);
            let y = file_part(v, n, e, bs)->Ok_0;
            let u = with_extents(t, v, n, q.extents, bs, i)->Ok_0;
            laid_is_there(u, e.1 * bs, y);
            assert forall|j: int| i + 1 <= j < q.extents.len() implies e.1 * bs + y.len() <= (
            #[trigger] q.extents[j]).1 * bs || (q.extents[j].1 + q.extents[j].2) * bs <= e.1 * bs by {
                ascending_order(q.extents, m[k], m[k + 1], i, j);
                blocks_follow(e.1 + e.2, q.extents[j].1 as int, bs);
            }
            file_spares(
                t,
                v,
                n,
                q.extents,
                bs,
                i + 1,
                q.extents.len() as int,
                e.1 * bs,
                y,
            );
            assert forall|j: int|
                k + 1 <= j < count && !list[j].is_dir() && !is_short_link(
                    list[j],
                ) implies content_apart(x, #[trigger] p[j], e.1 * bs, y.len() as int) by {
                spread_node(x, list, p, m, l, j);
                spread_pair(x, list, p, m, l, k, j);
                file_is_well_placed(x, list, p, m, j);
                content_beside(
                    x,
                    list[j],
                    p[j],
                    m[j],
                    m[j + 1],
                    e.1 as int,
                    e.1 + e.2,
                    e.1 * bs,
                    y.len() as int,
                );
            }
            contents_spare(s, v, x, list, p, k + 1, count, e.1 * bs, y);
        },
        Err(_) => {},
    }
}

proof fn prefix_is_ok(
    s: Seq<u8>,
    v: Volume,
    list: Seq<NodeView>,
    p: Seq<Placed>,
    block: int,
    i: int,
    k: int,
)
    requires
        0 < i <= k,
        with_contents(s, v, list, p, block, k) is Ok,
    ensures
        with_contents(s, v, list, p, block, i) is Ok,
        with_contents(s, v, list, p, block, i - 1) is Ok,
    decreases k,
{
    if i < k {
        prefix_is_ok(s, v, list, p, block, i, k - 1);
    }
}

proof fn extents_prefix_ok(
    s: Seq<u8>,
    v: Volume,
    n: NodeView,
    extents: Extents,
    block: int,
    i: int,
    k: int,
)
    requires
        0 < i <= k,
        with_extents(s, v, n, extents, block, k) is Ok,
    ensures
        with_extents(s, v, n, extents, block, i) is Ok,
        with_extents(s, v, n, extents, block, i - 1) is Ok,
    decreases k,
{
    if i < k {
        extents_prefix_ok(s, v, n, extents, block, i, k - 1);
    }
}

/// What stands in the metadata of a group stays while the files are copied.
pub proof fn contents_spare_the_metadata(
    s: Seq<u8>,
    v: Volume,
    x: Geometry,
    list: Seq<NodeView>,
    p: Seq<Placed>,
    m: Seq<int>,
    l: Seq<int>,
    g: int,
    at: int,
    y: Seq<u8>,
)
    requires
        sized(v),
        spread(x, list, p, m, l),
        files_spread(x, list, p, m),
        list.len() > 0,
        0 <= g < x.groups(),
        x.start(g) * x.block <= at,
        at + y.len() <= (x.start(g) + x.overhead()) * x.block,
        holds(s, at, y),
    ensures
        with_contents(s, v, list, p, x.block as int, list.len() as int) matches Ok(d) ==> holds(
            d,
            at,
            y,
        ),
{
    spread_node(x, list, p, m, l, 0);
    assert forall|j: int|
        0 <= j < list.len() && !list[j].is_dir() && !is_short_link(list[j]) implies content_apart(
        x,
        #[trigger] p[j],
        at,
        y.len() as int,
    ) by {
        file_is_well_placed(x, list, p, m, j);
        content_beside_metadata(x, list[j], p[j], m[j], m[j + 1], g, at, y.len() as int);
    }
    contents_spare(s, v, x, list, p, 0, list.len() as int, at, y);
}

/// What stands in the blocks of a directory or of a leaf stays while the
/// files are copied.
pub proof fn contents_spare_blocks(
    s: Seq<u8>,
    v: Volume,
    x: Geometry,
    list: Seq<NodeView>,
    p: Seq<Placed>,
    m: Seq<int>,
    l: Seq<int>,
    k: int,
    lo: int,
    hi: int,
    at: int,
    y: Seq<u8>,
)
    requires
        sized(v),
        spread(x, list, p, m, l),
        files_spread(x, list, p, m),
        0 <= k < list.len(),
        lo * x.block <= at,
        at + y.len() <= hi * x.block,
        (list[k].is_dir() && m[k] <= lo && hi <= m[k + 1]) || l[0] <= lo,
        holds(s, at, y),
    ensures
        with_contents(s, v, list, p, x.block as int, list.len() as int) matches Ok(d) ==> holds(
            d,
            at,
            y,
        ),
{
    spread_node(x, list, p, m, l, k);
    let len = y.len() as int;
    assert forall|j: int|
        0 <= j < list.len() && !list[j].is_dir() && !is_short_link(list[j]) implies content_apart(
        x,
        #[trigger] p[j],
        at,
        len,
    ) by {
        spread_node(x, list, p, m, l, j);
        if !(l[0] <= lo) {
            if j < k {
                spread_pair(x, list, p, m, l, j, k);
            } else {
                spread_pair(x, list, p, m, l, k, j);
            }
        }
        file_is_well_placed(x, list, p, m, j);
        content_beside(x, list[j], p[j], m[j], m[j + 1], lo, hi, at, len);
    }
    contents_spare(s, v, x, list, p, 0, list.len() as int, at, y);
}

proof fn content_beside(
    x: Geometry,
    n: NodeView,
    q: Placed,
    m0: int,
    m1: int,
    lo: int,
    hi: int,
    at: int,
    len: int,
)
    requires
        x.wf(),
        well_placed(n, q, x.block as int, x.reserved(), m0, m1),
        lo * x.block <= at,
        at + len <= hi * x.block,
        hi <= m0 || m1 <= lo,
    ensures
        content_apart(x, q, at, len),
{
    let bs = x.block as int;
    assert forall|i: int| 0 <= i < q.extents.len() implies at + len <= (#[trigger] q.extents[i]).1
        * x.block || (q.extents[i].1 + q.extents[i].2) * x.block <= at by {
        ascending_bounds(q.extents, m0, m1, i);
        if hi <= m0 {
            blocks_follow(hi, q.extents[i].1 as int, bs);
        } else {
            blocks_follow(q.extents[i].1 + q.extents[i].2, lo, bs);
        }
    }
}

} // verus!
