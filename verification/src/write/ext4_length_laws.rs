//! Fresh ext4 images end where their last block ends.
use super::blocks::Volume;
use super::ext4_arrive::{
    blocks_follow, dir_part_fits, dir_writes_at, file_is_well_placed, file_part, file_part_fits,
    files_spread, group_writes_bounds, inode_group, inode_is_in_its_table, inode_length, leaf_fits,
    leaf_writes_at, spread, spread_node,
};
use super::ext4_build::{
    dir_writes, leaf_writes, node_writes, nodes_writes, with_contents, with_extents,
};
use super::ext4_groups::{group_bounds, group_writes, groups_writes, Census, Geometry};
use super::ext4_inode::{is_short_link, Extents};
use super::ext4_place::Placed;
use super::ext4_space_laws::{avoids, clear};
use super::node::NodeView;
use super::patch::PatchView;
use super::read_back::sized;
use super::store::laid_all;
use crate::fs::ext4::Superblock;
use vstd::prelude::*;

verus! {

/// Every write ends in front of `n`.
pub open spec fn inside(w: Seq<PatchView>, n: int) -> bool {
    forall|i: int| 0 <= i < w.len() ==> (#[trigger] w[i]).at + w[i].data.len() <= n
}

/// Writes inside an image leave its length.
pub proof fn writes_inside_keep_the_length(s: Seq<u8>, w: Seq<PatchView>)
    requires
        inside(w, s.len() as int),
    ensures
        laid_all(s, w).len() == s.len(),
    decreases w.len(),
{
    if w.len() > 0 {
        assert(inside(w.drop_last(), s.len() as int)) by {
            assert forall|i: int| 0 <= i < w.drop_last().len() implies (#[trigger] w.drop_last()[i]).at
                + w.drop_last()[i].data.len() <= s.len() by {
                assert(w.drop_last()[i] == w[i]);
            }
        }
        writes_inside_keep_the_length(s, w.drop_last());
        assert(w.last() == w[w.len() - 1]);
    }
}

proof fn inside_joins(a: Seq<PatchView>, b: Seq<PatchView>, n: int)
    requires
        inside(a, n),
        inside(b, n),
    ensures
        inside(a + b, n),
{
    assert forall|i: int| 0 <= i < (a + b).len() implies (#[trigger] (a + b)[i]).at + (a
        + b)[i].data.len() <= n by {
        if i < a.len() {
            assert((a + b)[i] == a[i]);
        } else {
            assert((a + b)[i] == b[i - a.len()]);
        }
    }
}

/// The metadata of a group lies inside the image.
proof fn metadata_is_inside(x: Geometry, g: int)
    requires
        x.wf(),
        x.roomy(),
        0 <= g < x.groups(),
    ensures
        x.table(g) * x.block <= x.total * x.block,
        (x.start(g) + x.overhead()) * x.block <= x.total * x.block,
{
    group_bounds(x, g);
    blocks_follow(x.start(g) + x.overhead(), x.total as int, x.block as int);
    blocks_follow(x.table(g), x.start(g) + x.overhead(), x.block as int);
}

/// The metadata of all groups lies inside the image.
pub proof fn groups_are_inside(c: Census, p: Superblock, shared: bool, n: int)
    requires
        c.x.wf(),
        c.x.roomy(),
        0 <= n <= c.x.groups(),
    ensures
        inside(groups_writes(c, p, shared, n), c.x.total * c.x.block),
    decreases n,
{
    if n > 0 {
        groups_are_inside(c, p, shared, n - 1);
        metadata_is_inside(c.x, n - 1);
        let w = group_writes(c, p, shared, n - 1);
        assert forall|i: int| 0 <= i < w.len() implies (#[trigger] w[i]).at + w[i].data.len()
            <= c.x.total * c.x.block by {
            group_writes_bounds(c, p, shared, n - 1, i);
        }
        inside_joins(groups_writes(c, p, shared, n - 1), w, c.x.total * c.x.block);
    }
}

proof fn blocks_are_inside(x: Geometry, at: int, n: int)
    requires
        clear(x.reserved(), at, n),
    ensures
        at * x.block + n * x.block <= x.total * x.block,
{
    assert(at * x.block + n * x.block <= x.total * x.block) by (nonlinear_arith)
        requires
            at + n <= x.total,
            0 <= x.block,
    ;
}

proof fn node_is_inside(
    x: Geometry,
    list: Seq<NodeView>,
    q: Seq<Placed>,
    m: Seq<int>,
    l: Seq<int>,
    k: int,
)
    requires
        spread(x, list, q, m, l),
        0 <= k < list.len(),
    ensures
        inside(node_writes(x, list[k], q[k]), x.total * x.block),
{
    let n = list[k];
    let p = q[k];
    let bs = x.block as int;
    let end = x.total * x.block;
    spread_node(x, list, q, m, l, k);
    inode_length(x, n, p);
    inode_is_in_its_table(x, list, k);
    metadata_is_inside(x, inode_group(x, n.nid));
    let leaves = leaf_writes(p, bs, p.leaves.len() as int);
    let dirs = if n.is_dir() {
        dir_writes(p, bs, p.extents.len() as int)
    } else {
        Seq::empty()
    };
    assert(inside(leaves, end)) by {
        if p.leaves.len() > 0 {
            leaf_writes_at(p, bs, p.leaves.len() as int, 0);
        }
        assert forall|i: int| 0 <= i < leaves.len() implies (#[trigger] leaves[i]).at
            + leaves[i].data.len() <= end by {
            leaf_writes_at(p, bs, p.leaves.len() as int, i);
            leaf_fits(p.extents, p.leaves, bs, i);
            assert(clear(x.reserved(), p.leaves[i] as int, 1));
            blocks_are_inside(x, p.leaves[i] as int, 1);
        }
    }
    assert(inside(dirs, end)) by {
        if n.is_dir() && p.extents.len() > 0 {
            dir_writes_at(p, bs, p.extents.len() as int, 0);
        }
        assert forall|i: int| 0 <= i < dirs.len() implies (#[trigger] dirs[i]).at
            + dirs[i].data.len() <= end by {
            dir_writes_at(p, bs, p.extents.len() as int, i);
            let e = p.extents[i];
            dir_part_fits(p.data, e, bs);
            assert(clear(x.reserved(), e.1 as int, e.2 as int));
            blocks_are_inside(x, e.1 as int, e.2 as int);
        }
    }
    let own = node_writes(x, n, p).take(1);
    assert(inside(own, end));
    inside_joins(own, leaves, end);
    inside_joins(own + leaves, dirs, end);
    assert(node_writes(x, n, p) =~= own + leaves + dirs);
}

/// What is written of all nodes but the content of files lies inside the
/// image.
pub proof fn nodes_are_inside(
    x: Geometry,
    list: Seq<NodeView>,
    q: Seq<Placed>,
    m: Seq<int>,
    l: Seq<int>,
    k: int,
)
    requires
        spread(x, list, q, m, l),
        0 <= k <= list.len(),
    ensures
        inside(nodes_writes(x, list, q, k), x.total * x.block),
    decreases k,
{
    if k > 0 {
        nodes_are_inside(x, list, q, m, l, k - 1);
        node_is_inside(x, list, q, m, l, k - 1);
        inside_joins(
            nodes_writes(x, list, q, k - 1),
            node_writes(x, list[k - 1], q[k - 1]),
            x.total * x.block,
        );
    }
}

proof fn extents_keep_the_length(
    s: Seq<u8>,
    v: Volume,
    x: Geometry,
    n: NodeView,
    extents: Extents,
    k: int,
)
    requires
        sized(v),
        0 < x.block,
        avoids(extents, x.reserved()),
        s.len() == x.total * x.block,
        0 <= k <= extents.len(),
    ensures
        with_extents(s, v, n, extents, x.block as int, k) matches Ok(t) ==> t.len() == s.len(),
    decreases k,
{
    if k > 0 {
        let bs = x.block as int;
        extents_keep_the_length(s, v, x, n, extents, k - 1);
        let e = extents[k - 1];
        file_part_fits(v, n, e, bs);
        assert(clear(x.reserved(), e.1 as int, e.2 as int));
        blocks_are_inside(x, e.1 as int, e.2 as int);
        assert(file_part(v, n, e, bs) matches Ok(y) ==> e.1 * bs + y.len() <= s.len());
    }
}

/// Copying the content of files leaves the length of the image.
pub proof fn contents_keep_the_length(
    s: Seq<u8>,
    v: Volume,
    x: Geometry,
    list: Seq<NodeView>,
    q: Seq<Placed>,
    m: Seq<int>,
    l: Seq<int>,
    k: int,
)
    requires
        sized(v),
        spread(x, list, q, m, l),
        files_spread(x, list, q, m),
        s.len() == x.total * x.block,
        0 <= k <= list.len(),
    ensures
        with_contents(s, v, list, q, x.block as int, k) matches Ok(t) ==> t.len() == s.len(),
    decreases k,
{
    if k > 0 {
        contents_keep_the_length(s, v, x, list, q, m, l, k - 1);
        spread_node(x, list, q, m, l, k - 1);
        let n = list[k - 1];
        if let Ok(t) = with_contents(s, v, list, q, x.block as int, k - 1) {
            if !n.is_dir() && !is_short_link(n) {
                file_is_well_placed(x, list, q, m, k - 1);
                extents_keep_the_length(
                    t,
                    v,
                    x,
                    n,
                    q[k - 1].extents,
                    q[k - 1].extents.len() as int,
                );
            }
        }
    }
}

} // verus!
