//! Whole ext4 images: what was written reads back.
use super::blocks::Volume;
use super::ext4_arrive::{
    contents_spare_blocks, contents_spare_the_metadata, descriptors_length, directories_arrive,
    ext4_super_length, file_part, files_arrive, files_spread, first_group_arrives, inode_group,
    inode_is_in_its_table, inode_length, inodes_arrive, leaf_fits, leaves_arrive, node_spread,
    nodes_spare_the_first_group, spread,
};
use super::ext4_build::{
    dir_part, ext4_base, ext4_image, inode_offset, nodes_writes, well_numbered, with_contents,
};
use super::ext4_groups::{
    descriptors, ext4_super, first_places, group_bounds, groups_writes, laid_out, Census, Geometry,
};
use super::ext4_inode::{inode_bytes, is_short_link, leaf_bytes, leaves_match};
use super::ext4_length_laws::{
    contents_keep_the_length, groups_are_inside, nodes_are_inside, writes_inside_keep_the_length,
};
use super::ext4_place::{all_with_leaves, placed_nodes, Placed};
use super::ext4_space::{Sharing, SpaceView};
use super::ext4_space_laws::{
    ascending_block_bounds, ascending_bounds, leaf_mark, leaves_are_well_placed, leaves_placed,
    mark, nodes_are_well_placed, well_placed,
};
use super::fresh_laws::holds;
use super::node::NodeView;
use super::read_back::sized;
use super::store::{laid_all, laid_all_joins};
use crate::buf::zeros;
use crate::error::Fault;
use crate::fs::ext4::Superblock;
use crate::math::ceil_div_covers;
use vstd::prelude::*;

verus! {

// ---------------------------------------------------------------------
// The plan
// ---------------------------------------------------------------------
/// An empty image: nothing is used but what is reserved.
pub open spec fn empty_space(x: Geometry) -> Sharing {
    Sharing {
        space: SpaceView { used: x.reserved(), next: 0 },
        shared: Seq::empty(),
        image: zeros(x.total * x.block),
    }
}

/// No two nodes have the same number.
pub open spec fn own_numbers(list: Seq<NodeView>) -> bool {
    forall|i: int, j: int|
        0 <= i < j < list.len() ==> (#[trigger] list[i]).nid != (#[trigger] list[j]).nid
}

/// Where all nodes can be placed, the first ones can.
pub proof fn placed_prefix(
    s: Sharing,
    v: Volume,
    list: Seq<NodeView>,
    block: int,
    shared: bool,
    i: int,
    k: int,
)
    requires
        0 <= i <= k,
        placed_nodes(s, v, list, block, shared, k) is Ok,
    ensures
        placed_nodes(s, v, list, block, shared, i) is Ok,
    decreases k,
{
    if i < k {
        placed_prefix(s, v, list, block, shared, i, k - 1);
    }
}

/// Where all leaves can be placed, the first ones can.
pub proof fn leaves_prefix(s: SpaceView, p: Seq<Placed>, block: int, i: int, k: int)
    requires
        0 <= i <= k,
        all_with_leaves(s, p, block, k) is Ok,
    ensures
        all_with_leaves(s, p, block, i) is Ok,
    decreases k,
{
    if i < k {
        leaves_prefix(s, p, block, i, k - 1);
    }
}

/// Where the content of each node starts.
pub open spec fn marks(x: Geometry, v: Volume, list: Seq<NodeView>, shared: bool) -> Seq<int> {
    Seq::new(
        list.len() + 1,
        |k: int| mark(empty_space(x), v, list, x.block as int, shared, k),
    )
}

/// Where the leaves of each node start.
pub open spec fn leaf_marks(s: SpaceView, p: Seq<Placed>, block: int) -> Seq<int> {
    Seq::new(p.len() + 1, |k: int| leaf_mark(s, p, block, k))
}

/// The nodes of a fresh image are spread.
pub proof fn images_are_spread(v: Volume, list: Seq<NodeView>, p: Superblock, total: int)
    requires
        laid_out(p) is Ok,
        1 <= total,
        well_numbered(list, Geometry::of(p, total)),
        own_numbers(list),
        ext4_base(v, list, p, total, false) is Ok,
    ensures
        ({
            let x = Geometry::of(p, total);
            let bs = x.block as int;
            let n = list.len() as int;
            let (s, placed) = placed_nodes(empty_space(x), v, list, bs, false, n)->Ok_0;
            let done = ext4_base(v, list, p, total, false)->Ok_0.1;
            &&& spread(x, list, done, marks(x, v, list, false), leaf_marks(s.space, placed, bs))
            &&& files_spread(x, list, done, marks(x, v, list, false))
            &&& s.image == zeros(total * bs)
            &&& placed.len() == n
            &&& x.wf()
            &&& x.roomy()
            &&& x.total == total
        }),
{
    let x = Geometry::of(p, total);
    let bs = x.block as int;
    let n = list.len() as int;
    let s0 = empty_space(x);
    let kept = x.reserved();
    assert(x.wf());
    let (s, placed) = placed_nodes(s0, v, list, bs, false, n)->Ok_0;
    let (space, done) = all_with_leaves(s.space, placed, bs, placed.len() as int)->Ok_0;
    nodes_are_well_placed(s0, v, list, bs, n, kept);
    leaves_are_well_placed(s.space, placed, bs, n, kept);
    let m = marks(x, v, list, false);
    let l = leaf_marks(s.space, placed, bs);
    assert forall|k: int| 0 <= k < n implies node_spread(
        x,
        list[k],
        #[trigger] done[k],
        m[k],
        m[k + 1],
        l[k],
        l[k + 1],
    ) by {
        assert(well_placed(list[k], placed[k], bs, kept, m[k], m[k + 1]));
        assert(leaves_placed(placed[k], done[k], bs, kept, l[k], l[k + 1]));
    }
    assert forall|i: int, j: int| 0 <= i <= j < m.len() implies #[trigger] m[i]
        <= #[trigger] m[j] by {
        if i < j {
            placed_prefix(s0, v, list, bs, false, j, n);
            nodes_are_well_placed(s0, v, list, bs, j, kept);
            if i > 0 {
                let before = placed_nodes(s0, v, list, bs, false, j)->Ok_0.1;
                assert(well_placed(
                    list[i - 1],
                    before[i - 1],
                    bs,
                    kept,
                    mark(s0, v, list, bs, false, i - 1),
                    mark(s0, v, list, bs, false, i - 1 + 1),
                ));
            }
        }
    }
    assert forall|i: int, j: int| 0 <= i <= j < l.len() implies #[trigger] l[i]
        <= #[trigger] l[j] by {
        if i < j {
            leaves_prefix(s.space, placed, bs, j, n);
            leaves_are_well_placed(s.space, placed, bs, j, kept);
            if i > 0 {
                let before = all_with_leaves(s.space, placed, bs, j)->Ok_0.1;
                assert(leaves_placed(
                    placed[i - 1],
                    before[i - 1],
                    bs,
                    kept,
                    leaf_mark(s.space, placed, bs, i - 1),
                    leaf_mark(s.space, placed, bs, i - 1 + 1),
                ));
            }
        }
    }
    assert(l[0] == s.space.next);
    assert(m[n] == s.space.next);
    reveal(spread);
    assert(files_spread(x, list, done, m)) by {
        reveal(files_spread);
        assert forall|k: int| 0 <= k < n && !list[k].is_dir() implies well_placed(
            list[k],
            #[trigger] done[k],
            bs,
            kept,
            m[k],
            m[k + 1],
        ) by {
            assert(well_placed(list[k], placed[k], bs, kept, m[k], m[k + 1]));
            assert(leaves_placed(placed[k], done[k], bs, kept, l[k], l[k + 1]));
        }
    }
}

// ---------------------------------------------------------------------
// What arrives
// ---------------------------------------------------------------------
/// The image `d` holds the superblock, the descriptors, the inodes, the
/// leaves of extent trees, and the content of directories.
#[verifier::opaque]
pub open spec fn arrived(
    d: Seq<u8>,
    c: Census,
    p: Superblock,
    shared: bool,
    q: Seq<Placed>,
) -> bool {
    let x = c.x;
    let bs = x.block as int;
    &&& holds(d, 1024, ext4_super(c, p, shared))
    &&& holds(d, x.descriptors_at(), descriptors(c, x.groups()))
    &&& forall|k: int|
        0 <= k < c.list.len() ==> holds(
            d,
            inode_offset(x, (#[trigger] c.list[k]).nid),
            inode_bytes(
                c.list[k],
                q[k].size,
                q[k].extents,
                q[k].leaves,
                bs,
                x.inode_size as int,
            ),
        )
    &&& forall|k: int, i: int|
        0 <= k < c.list.len() && 0 <= i < q[k].leaves.len() ==> holds(
            d,
            (#[trigger] q[k].leaves[i]) * bs,
            leaf_bytes(q[k].extents, bs, i),
        )
    &&& forall|k: int, i: int|
        0 <= k < c.list.len() && c.list[k].is_dir() && 0 <= i < q[k].extents.len() ==> holds(
            d,
            (#[trigger] q[k].extents[i]).1 * bs,
            dir_part(q[k].data, q[k].extents[i], bs),
        )
}

/// The image `d` holds the content of the files, each in its own blocks.
#[verifier::opaque]
pub open spec fn contents_arrived(d: Seq<u8>, v: Volume, c: Census, q: Seq<Placed>) -> bool {
    let bs = c.x.block as int;
    forall|k: int, i: int|
        0 <= k < c.list.len() && !c.list[k].is_dir() && !is_short_link(c.list[k]) && 0 <= i
            < q[k].extents.len() ==> {
            let e = #[trigger] q[k].extents[i];
            file_part(v, c.list[k], e, bs) is Ok && holds(
                d,
                e.1 * bs,
                file_part(v, c.list[k], e, bs)->Ok_0,
            )
        }
}

/// The bytes of blocks.
pub proof fn blocks_have_bytes(total: int, block: int)
    requires
        0 <= total,
        0 <= block,
    ensures
        zeros(total * block).len() == total * block,
{
    assert(0 <= total * block) by (nonlinear_arith)
        requires
            0 <= total,
            0 <= block,
    ;
}

proof fn zone_holds_inode(x: Geometry, list: Seq<NodeView>, k: int)
    requires
        x.wf(),
        x.roomy(),
        well_numbered(list, x),
        0 <= k < list.len(),
    ensures
        x.start(inode_group(x, list[k].nid)) * x.block <= inode_offset(x, list[k].nid),
        0 <= inode_group(x, list[k].nid) < x.groups(),
        inode_offset(x, list[k].nid) + x.inode_size <= (x.start(inode_group(x, list[k].nid))
            + x.overhead()) * x.block,
{
    inode_is_in_its_table(x, list, k);
}

proof fn first_group_stays(
    s: Seq<u8>,
    d: Seq<u8>,
    v: Volume,
    c: Census,
    p: Superblock,
    q: Seq<Placed>,
    m: Seq<int>,
    l: Seq<int>,
)
    requires
        sized(v),
        spread(c.x, c.list, q, m, l),
        files_spread(c.x, c.list, q, m),
        c.x.wf(),
        c.x.roomy(),
        c.list.len() > 0,
        with_contents(
            laid_all(
                laid_all(s, groups_writes(c, p, false, c.x.groups())),
                nodes_writes(c.x, c.list, q, c.list.len() as int),
            ),
            v,
            c.list,
            q,
            c.x.block as int,
            c.list.len() as int,
        ) == Ok::<Seq<u8>, Fault>(d),
    ensures
        holds(d, 1024, ext4_super(c, p, false)),
        holds(d, c.x.descriptors_at(), descriptors(c, c.x.groups())),
{
    let t = laid_all(s, groups_writes(c, p, false, c.x.groups()));
    first_zone(c.x);
    first_group_arrives(s, c, p, false, c.x.groups());
    ext4_super_length(c, p, false);
    descriptors_length(c, c.x.groups());
    front_stays(t, d, v, c.x, c.list, q, m, l, 1024, ext4_super(c, p, false));
    front_stays(
        t,
        d,
        v,
        c.x,
        c.list,
        q,
        m,
        l,
        c.x.descriptors_at(),
        descriptors(c, c.x.groups()),
    );
}

/// What stands in front of the first group.
pub proof fn first_zone(x: Geometry)
    requires
        x.wf(),
    ensures
        0 < x.groups(),
        x.start(0) * x.block <= 1024,
        x.start(0) * x.block <= x.descriptors_at(),
        x.start(0) == x.first(),
        x.table(0) * x.block <= (x.start(0) + x.overhead()) * x.block,
{
    let bs = x.block as int;
    ceil_div_covers(x.total as int, x.blocks_per_group as int);
    assert(x.groups() > 0) by (nonlinear_arith)
        requires
            x.groups() * x.blocks_per_group >= x.total,
            x.total >= 1,
            x.blocks_per_group >= 1,
    ;
    group_bounds(x, 0);
    first_places(x);
    assert(x.table(0) * bs <= (x.start(0) + x.overhead()) * bs) by (nonlinear_arith)
        requires
            x.table(0) <= x.start(0) + x.overhead(),
            0 < bs,
    ;
}

/// What stands in the first group in front of its inode table stays.
proof fn front_stays(
    t: Seq<u8>,
    d: Seq<u8>,
    v: Volume,
    x: Geometry,
    list: Seq<NodeView>,
    q: Seq<Placed>,
    m: Seq<int>,
    l: Seq<int>,
    at: int,
    y: Seq<u8>,
)
    requires
        sized(v),
        spread(x, list, q, m, l),
        files_spread(x, list, q, m),
        x.wf(),
        x.roomy(),
        list.len() > 0,
        holds(t, at, y),
        x.start(0) * x.block <= at,
        at + y.len() <= x.table(0) * x.block,
        with_contents(
            laid_all(t, nodes_writes(x, list, q, list.len() as int)),
            v,
            list,
            q,
            x.block as int,
            list.len() as int,
        ) == Ok::<Seq<u8>, Fault>(d),
    ensures
        holds(d, at, y),
{
    nodes_spare_the_first_group(t, x, list, q, m, l, at, y);
    first_zone(x);
    contents_spare_the_metadata(
        laid_all(t, nodes_writes(x, list, q, list.len() as int)),
        v,
        x,
        list,
        q,
        m,
        l,
        0,
        at,
        y,
    );
}

proof fn inode_stays(
    t: Seq<u8>,
    d: Seq<u8>,
    v: Volume,
    x: Geometry,
    list: Seq<NodeView>,
    q: Seq<Placed>,
    m: Seq<int>,
    l: Seq<int>,
    k: int,
)
    requires
        sized(v),
        spread(x, list, q, m, l),
        files_spread(x, list, q, m),
        0 <= k < list.len(),
        with_contents(
            laid_all(t, nodes_writes(x, list, q, list.len() as int)),
            v,
            list,
            q,
            x.block as int,
            list.len() as int,
        ) == Ok::<Seq<u8>, Fault>(d),
    ensures
        holds(
            d,
            inode_offset(x, list[k].nid),
            inode_bytes(
                list[k],
                q[k].size,
                q[k].extents,
                q[k].leaves,
                x.block as int,
                x.inode_size as int,
            ),
        ),
{
    let bs = x.block as int;
    let y = inode_bytes(
        list[k],
        q[k].size,
        q[k].extents,
        q[k].leaves,
        bs,
        x.inode_size as int,
    );
    assert(x.wf() && x.roomy() && well_numbered(list, x) && leaves_match(
        q[k].extents,
        q[k].leaves,
        bs,
    )) by {
        reveal(spread);
        assert(node_spread(x, list[k], q[k], m[k], m[k + 1], l[k], l[k + 1]));
    }
    inode_length(x, list[k], q[k]);
    inodes_arrive(t, x, list, q, m, l, k);
    zone_holds_inode(x, list, k);
    contents_spare_the_metadata(
        laid_all(t, nodes_writes(x, list, q, list.len() as int)),
        v,
        x,
        list,
        q,
        m,
        l,
        inode_group(x, list[k].nid),
        inode_offset(x, list[k].nid),
        y,
    );
}

proof fn leaf_stays(
    t: Seq<u8>,
    d: Seq<u8>,
    v: Volume,
    x: Geometry,
    list: Seq<NodeView>,
    q: Seq<Placed>,
    m: Seq<int>,
    l: Seq<int>,
    k: int,
    i: int,
)
    requires
        sized(v),
        spread(x, list, q, m, l),
        files_spread(x, list, q, m),
        0 <= k < list.len(),
        0 <= i < q[k].leaves.len(),
        with_contents(
            laid_all(t, nodes_writes(x, list, q, list.len() as int)),
            v,
            list,
            q,
            x.block as int,
            list.len() as int,
        ) == Ok::<Seq<u8>, Fault>(d),
    ensures
        holds(d, q[k].leaves[i] * x.block, leaf_bytes(q[k].extents, x.block as int, i)),
{
    let bs = x.block as int;
    leaves_arrive(t, x, list, q, m, l, k, i);
    let b = q[k].leaves[i] as int;
    assert(node_spread(x, list[k], q[k], m[k], m[k + 1], l[k], l[k + 1]) && l[0] <= l[k]
        && 1024 <= x.block <= 65536) by {
        reveal(spread);
    }
    ascending_block_bounds(q[k].leaves, l[k], l[k + 1], i);
    leaf_fits(q[k].extents, q[k].leaves, bs, i);
    assert((b + 1) * bs == b * bs + bs) by (nonlinear_arith);
    contents_spare_blocks(
        laid_all(t, nodes_writes(x, list, q, list.len() as int)),
        v,
        x,
        list,
        q,
        m,
        l,
        k,
        b,
        b + 1,
        b * bs,
        leaf_bytes(q[k].extents, bs, i),
    );
}

proof fn directory_stays(
    t: Seq<u8>,
    d: Seq<u8>,
    v: Volume,
    x: Geometry,
    list: Seq<NodeView>,
    q: Seq<Placed>,
    m: Seq<int>,
    l: Seq<int>,
    k: int,
    i: int,
)
    requires
        sized(v),
        spread(x, list, q, m, l),
        files_spread(x, list, q, m),
        0 <= k < list.len(),
        list[k].is_dir(),
        q[k].data.len() % x.block as nat == 0,
        0 <= i < q[k].extents.len(),
        with_contents(
            laid_all(t, nodes_writes(x, list, q, list.len() as int)),
            v,
            list,
            q,
            x.block as int,
            list.len() as int,
        ) == Ok::<Seq<u8>, Fault>(d),
    ensures
        holds(
            d,
            q[k].extents[i].1 * x.block,
            dir_part(q[k].data, q[k].extents[i], x.block as int),
        ),
{
    let bs = x.block as int;
    directories_arrive(t, x, list, q, m, l, k, i);
    let e = q[k].extents[i];
    assert(node_spread(x, list[k], q[k], m[k], m[k + 1], l[k], l[k + 1])) by {
        reveal(spread);
    }
    ascending_bounds(q[k].extents, m[k], m[k + 1], i);
    assert((e.1 + e.2) * bs == e.1 * bs + e.2 * bs) by (nonlinear_arith);
    contents_spare_blocks(
        laid_all(t, nodes_writes(x, list, q, list.len() as int)),
        v,
        x,
        list,
        q,
        m,
        l,
        k,
        e.1 as int,
        e.1 + e.2,
        e.1 * bs,
        dir_part(q[k].data, e, bs),
    );
}

/// Everything of a fresh image arrives.
pub proof fn images_arrive(v: Volume, list: Seq<NodeView>, p: Superblock, total: int) -> (r: (
    Census,
    Seq<Placed>,
    Seq<int>,
    Seq<int>,
))
    requires
        laid_out(p) is Ok,
        1 <= total,
        sized(v),
        list.len() > 0,
        super::ext4_layout::all_names_fit(list),
        well_numbered(list, Geometry::of(p, total)),
        own_numbers(list),
        ext4_image(v, list, p, total, false) is Ok,
    ensures
        r.0.x == Geometry::of(p, total),
        r.0.list == list,
        spread(r.0.x, list, r.1, r.2, r.3),
        files_spread(r.0.x, list, r.1, r.2),
        arrived(ext4_image(v, list, p, total, false)->Ok_0, r.0, p, false, r.1),
        contents_arrived(ext4_image(v, list, p, total, false)->Ok_0, v, r.0, r.1),
        1 <= total <= u32::MAX,
        ext4_image(v, list, p, total, false)->Ok_0.len() == total * p.block_size,
{
    let x = Geometry::of(p, total);
    let bs = x.block as int;
    let n = list.len() as int;
    let d = ext4_image(v, list, p, total, false)->Ok_0;
    images_are_spread(v, list, p, total);
    let (s, placed) = placed_nodes(empty_space(x), v, list, bs, false, n)->Ok_0;
    let (space, done) = all_with_leaves(s.space, placed, bs, n)->Ok_0;
    let c = Census { x, used: space.used, list };
    let m = marks(x, v, list, false);
    let l = leaf_marks(s.space, placed, bs);
    let gw = groups_writes(c, p, false, x.groups());
    let nw = nodes_writes(x, list, done, n);
    let t = laid_all(s.image, gw);
    laid_all_joins(s.image, gw, nw);
    blocks_have_bytes(total, bs);
    groups_are_inside(c, p, false, x.groups());
    nodes_are_inside(x, list, done, m, l, n);
    writes_inside_keep_the_length(s.image, gw);
    writes_inside_keep_the_length(t, nw);
    contents_keep_the_length(laid_all(t, nw), v, x, list, done, m, l, n);
    first_group_stays(s.image, d, v, c, p, done, m, l);
    assert forall|k: int| 0 <= k < n implies holds(
        d,
        inode_offset(x, (#[trigger] list[k]).nid),
        inode_bytes(
            list[k],
            done[k].size,
            done[k].extents,
            done[k].leaves,
            bs,
            x.inode_size as int,
        ),
    ) by {
        inode_stays(t, d, v, x, list, done, m, l, k);
    }
    assert forall|k: int, i: int| 0 <= k < n && 0 <= i < done[k].leaves.len() implies holds(
        d,
        (#[trigger] done[k].leaves[i]) * bs,
        leaf_bytes(done[k].extents, bs, i),
    ) by {
        leaf_stays(t, d, v, x, list, done, m, l, k, i);
    }
    assert forall|k: int, i: int|
        0 <= k < n && list[k].is_dir() && 0 <= i < done[k].extents.len() implies holds(
        d,
        (#[trigger] done[k].extents[i]).1 * bs,
        dir_part(done[k].data, done[k].extents[i], bs),
    ) by {
        assert(node_spread(x, list[k], done[k], m[k], m[k + 1], l[k], l[k + 1])) by {
            reveal(spread);
        }
        super::ext4_layout::directories_fill_blocks(list[k], bs);
        directory_stays(t, d, v, x, list, done, m, l, k, i);
    }
    assert(arrived(d, c, p, false, done)) by {
        reveal(arrived);
    }
    assert(contents_arrived(d, v, c, done)) by {
        reveal(contents_arrived);
        assert forall|k: int, i: int|
            0 <= k < n && !list[k].is_dir() && !is_short_link(list[k]) && 0 <= i
                < done[k].extents.len() implies {
            let e = #[trigger] done[k].extents[i];
            file_part(v, list[k], e, bs) is Ok && holds(
                d,
                e.1 * bs,
                file_part(v, list[k], e, bs)->Ok_0,
            )
        } by {
            files_arrive(laid_all(t, nw), v, x, list, done, m, l, k, i);
        }
    }
    (c, done, m, l)
}

} // verus!
