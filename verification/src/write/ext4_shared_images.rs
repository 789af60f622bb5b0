//! Whole ext4 images with shared blocks: what was written reads back.
use super::blocks::{ext4_piece, ext4_range, extent_is_there, extent_with, served, Volume};
use super::ext4_arrive::{
    beside_interval, blocks_follow, directories_arrive, ext4_super_length, first_group_arrives,
    group_writes_bounds, groups_are_apart, inode_group, inode_is_in_its_table, inodes_arrive,
    leaves_arrive, metadata_is_apart, node_spread, node_writes_apart, nodes_spare,
    nodes_spare_the_first_group, spread, spread_node, spread_pair,
};
use super::ext4_build::{
    dir_part, ext4_base, ext4_image, inode_offset, node_writes, nodes_writes, well_numbered,
};
use super::ext4_groups::{
    descriptors, ext4_super, group_bounds, group_writes, groups_writes, laid_out, Census, Geometry,
};
use super::ext4_images::{
    arrived, blocks_have_bytes, empty_space, first_zone, leaf_marks, leaves_prefix, marks,
    own_numbers, placed_prefix,
};
use super::ext4_inode::{inode_bytes, is_short_link, leaf_bytes, Extents};
use super::ext4_layout::{all_names_fit, directories_fill_blocks};
use super::ext4_length_laws::{
    groups_are_inside, nodes_are_inside, writes_inside_keep_the_length,
};
use super::ext4_place::{all_with_leaves, file_block, is_blank, placed_nodes, Placed};
use super::ext4_read_back::{extent_is_found, mapped_extents};
use super::ext4_share_laws::{
    covered, is_stored, maps, nodes_are_settled, orderly, recorded, settled_node,
    taken_for_a_file,
};
use super::ext4_source::mapped;
use super::ext4_space_laws::{clear, leaf_mark, leaves_are_well_placed, leaves_placed, mark};
use super::ext4_tree_laws::{files_serve, mapped_node, serves_the_same};
use super::extent_laws::as_extents;
use super::fresh_laws::{holds, writes_stay_apart};
use super::node::NodeView;
use super::read_back::sized;
use super::serve_laws::serves;
use super::store::{laid_all, laid_all_joins};
use crate::buf::zeros;
use crate::error::Fault;
use crate::fs::ext4::Superblock;
use crate::math::{ceil_div, ceil_div_covers, least};
use vstd::prelude::*;

verus! {

// ---------------------------------------------------------------------
// The plan
// ---------------------------------------------------------------------
/// The nodes of a fresh image with shared blocks are spread, and their blocks
/// are known.
proof fn shared_images_are_spread(v: Volume, list: Seq<NodeView>, p: Superblock, total: int)
    requires
        laid_out(p) is Ok,
        sized(v),
        1 <= total,
        well_numbered(list, Geometry::of(p, total)),
        own_numbers(list),
        ext4_base(v, list, p, total, true) is Ok,
    ensures
        ({
            let x = Geometry::of(p, total);
            let bs = x.block as int;
            let n = list.len() as int;
            let (s, placed) = placed_nodes(empty_space(x), v, list, bs, true, n)->Ok_0;
            let done = ext4_base(v, list, p, total, true)->Ok_0.1;
            let m = marks(x, v, list, true);
            &&& spread(x, list, done, m, leaf_marks(s.space, placed, bs))
            &&& orderly(s, bs, x.reserved())
            &&& placed.len() == n
            &&& x.wf()
            &&& x.roomy()
            &&& x.total == total
            &&& forall|k: int|
                0 <= k < n && !list[k].is_dir() && !is_short_link(list[k]) ==> recorded(
                    s.shared,
                    v,
                    list[k],
                    bs,
                    (#[trigger] done[k]).extents,
                    ceil_div(list[k].data_size as int, bs),
                )
            &&& forall|i: int|
                0 <= i < s.shared.len() ==> owned(x, list, m, (#[trigger] s.shared[i]).1 as int)
        }),
{
    let x = Geometry::of(p, total);
    let bs = x.block as int;
    let n = list.len() as int;
    let s0 = empty_space(x);
    let kept = x.reserved();
    assert(x.wf());
    blocks_have_bytes(total, bs);
    let (s, placed) = placed_nodes(s0, v, list, bs, true, n)->Ok_0;
    let (space, done) = all_with_leaves(s.space, placed, bs, placed.len() as int)->Ok_0;
    assert(orderly(s0, bs, kept));
    nodes_are_settled(s0, v, list, bs, n, kept);
    leaves_are_well_placed(s.space, placed, bs, n, kept);
    let m = marks(x, v, list, true);
    let l = leaf_marks(s.space, placed, bs);
    assert forall|k: int| 0 <= k < n implies node_spread(
        x,
        list[k],
        #[trigger] done[k],
        m[k],
        m[k + 1],
        l[k],
        l[k + 1],
    ) by {
        assert(settled_node(s.shared, v, list[k], placed[k], bs, kept, m[k], m[k + 1]));
        assert(leaves_placed(placed[k], done[k], bs, kept, l[k], l[k + 1]));
    }
    assert forall|i: int, j: int| 0 <= i <= j < m.len() implies #[trigger] m[i]
        <= #[trigger] m[j] by {
        if i < j {
            placed_prefix(s0, v, list, bs, true, j, n);
            nodes_are_settled(s0, v, list, bs, j, kept);
            if i > 0 {
                let before = placed_nodes(s0, v, list, bs, true, j)->Ok_0.1;
                let (t, _) = placed_nodes(s0, v, list, bs, true, j)->Ok_0;
                assert(settled_node(
                    t.shared,
                    v,
                    list[i - 1],
                    before[i - 1],
                    bs,
                    kept,
                    mark(s0, v, list, bs, true, i - 1),
                    mark(s0, v, list, bs, true, i - 1 + 1),
                ));
            }
        }
    }
    assert forall|i: int, j: int| 0 <= i <= j < l.len() implies #[trigger] l[i]
        <= #[trigger] l[j] by {
        if i < j {
            leaves_prefix(s.space, placed, bs, j, n);
            leaves_are_well_placed(s.space, placed, bs, j, kept);
            if i > 0 {
                let before = all_with_leaves(s.space, placed, bs, j)->Ok_0.1;
                assert(leaves_placed(
                    placed[i - 1],
                    before[i - 1],
                    bs,
                    kept,
                    leaf_mark(s.space, placed, bs, i - 1),
                    leaf_mark(s.space, placed, bs, i - 1 + 1),
                ));
            }
        }
    }
    assert(l[0] == s.space.next);
    assert(m[n] == s.space.next);
    reveal(spread);
    assert forall|k: int|
        0 <= k < n && !list[k].is_dir() && !is_short_link(list[k]) implies recorded(
        s.shared,
        v,
        list[k],
        bs,
        (#[trigger] done[k]).extents,
        ceil_div(list[k].data_size as int, bs),
    ) by {
        assert(settled_node(s.shared, v, list[k], placed[k], bs, kept, m[k], m[k + 1]));
        assert(leaves_placed(placed[k], done[k], bs, kept, l[k], l[k + 1]));
    }
    assert forall|i: int| 0 <= i < s.shared.len() implies owned(
        x,
        list,
        m,
        (#[trigger] s.shared[i]).1 as int,
    ) by {
        let b = s.shared[i].1 as int;
        assert(taken_for_a_file(s0, v, list, bs, n, b));
        let j = choose|j: int|
            0 <= j < n && !(#[trigger] list[j]).is_dir() && mark(s0, v, list, bs, true, j) <= b < mark(
                s0,
                v,
                list,
                bs,
                true,
                j + 1,
            );
        assert(m[j] <= b < m[j + 1]);
        assert(!list[j].is_dir());
    }
}

/// A block belongs to a file, and to no metadata.
pub open spec fn owned(x: Geometry, list: Seq<NodeView>, m: Seq<int>, b: int) -> bool {
    &&& clear(x.reserved(), b, 1)
    &&& exists|j: int|
        0 <= j < list.len() && !(#[trigger] list[j]).is_dir() && m[j] <= b < m[j + 1]
}

// ---------------------------------------------------------------------
// What stays
// ---------------------------------------------------------------------
/// Writing the groups leaves a block alone that is not reserved.
proof fn groups_spare_blocks(
    s: Seq<u8>,
    c: Census,
    p: Superblock,
    shared: bool,
    n: int,
    b: int,
    y: Seq<u8>,
)
    requires
        c.x.wf(),
        c.x.roomy(),
        0 <= n <= c.x.groups(),
        clear(c.x.reserved(), b, 1),
        y.len() == c.x.block,
        holds(s, b * c.x.block, y),
    ensures
        holds(laid_all(s, groups_writes(c, p, shared, n)), b * c.x.block, y),
    decreases n,
{
    if n > 0 {
        groups_spare_blocks(s, c, p, shared, n - 1, b, y);
        let before = groups_writes(c, p, shared, n - 1);
        let w = group_writes(c, p, shared, n - 1);
        laid_all_joins(s, before, w);
        let x = c.x;
        let bs = x.block as int;
        let g = n - 1;
        groups_are_apart(x, g, b, 1);
        group_bounds(x, g);
        assert((b + 1) * bs == b * bs + bs) by (nonlinear_arith);
        assert forall|i: int| 0 <= i < w.len() implies (#[trigger] w[i]).at >= 0 && (w[i].at
            + w[i].data.len() <= b * bs || b * bs + y.len() <= w[i].at) by {
            group_writes_bounds(c, p, shared, g, i);
            blocks_follow(0, x.start(g), bs);
            blocks_follow(x.table(g), x.start(g) + x.overhead(), bs);
            if b + 1 <= x.start(g) {
                blocks_follow(b + 1, x.start(g), bs);
            } else {
                blocks_follow(x.start(g) + x.overhead(), b, bs);
            }
        }
        writes_stay_apart(laid_all(s, before), w, b * bs, y);
    } else {
        assert(groups_writes(c, p, shared, 0) =~= Seq::empty());
    }
}

/// Writing the nodes leaves the blocks of files alone.
proof fn nodes_spare_blocks(
    s: Seq<u8>,
    x: Geometry,
    list: Seq<NodeView>,
    q: Seq<Placed>,
    m: Seq<int>,
    l: Seq<int>,
    b: int,
    y: Seq<u8>,
)
    requires
        spread(x, list, q, m, l),
        owned(x, list, m, b),
        y.len() == x.block,
        holds(s, b * x.block, y),
    ensures
        holds(laid_all(s, nodes_writes(x, list, q, list.len() as int)), b * x.block, y),
{
    let bs = x.block as int;
    let at = b * bs;
    let i = choose|i: int|
        0 <= i < list.len() && !(#[trigger] list[i]).is_dir() && m[i] <= b < m[i + 1];
    spread_node(x, list, q, m, l, i);
    assert((b + 1) * bs == at + bs) by (nonlinear_arith)
        requires
            at == b * bs,
    ;
    assert forall|j: int| 0 <= j < list.len() implies apart_from(x, list, q, j, at, bs) by {
        spread_node(x, list, q, m, l, j);
        if i < j {
            spread_pair(x, list, q, m, l, i, j);
        } else if j < i {
            spread_pair(x, list, q, m, l, j, i);
        }
        inode_is_in_its_table(x, list, j);
        let g = inode_group(x, list[j].nid);
        metadata_is_apart(x, g, b, 1, inode_offset(x, list[j].nid), x.inode_size as int);
        beside_interval(
            x,
            list[j],
            q[j],
            m[j],
            m[j + 1],
            l[j],
            l[j + 1],
            b,
            b + 1,
            at,
            bs,
        );
        node_writes_apart(x, list, q[j], j, at, bs);
    }
    assert forall|j: int| 0 <= j < list.len() implies super::fresh_laws::apart(
        #[trigger] node_writes(x, list[j], q[j]),
        at,
        y.len() as int,
    ) by {
        assert(apart_from(x, list, q, j, at, bs));
    }
    assert(nodes_writes(x, list, q, 0) =~= Seq::empty());
    nodes_spare(s, x, list, q, list.len() as int, 0, at, y);
}

spec fn apart_from(
    x: Geometry,
    list: Seq<NodeView>,
    q: Seq<Placed>,
    j: int,
    at: int,
    len: int,
) -> bool {
    super::fresh_laws::apart(node_writes(x, list[j], q[j]), at, len)
}

// ---------------------------------------------------------------------
// Serving
// ---------------------------------------------------------------------
/// Every block that was written is there.
#[verifier::opaque]
pub open spec fn blocks_there(d: Seq<u8>, shared: Seq<(Seq<u8>, u32)>, block: int) -> bool {
    forall|i: int|
        0 <= i < shared.len() ==> (#[trigger] shared[i]).0.len() == block && holds(
            d,
            shared[i].1 * block,
            shared[i].0,
        )
}

proof fn stored_block_is_there(
    d: Seq<u8>,
    shared: Seq<(Seq<u8>, u32)>,
    block: int,
    data: Seq<u8>,
    b: int,
)
    requires
        blocks_there(d, shared, block),
        is_stored(shared, data, b),
    ensures
        data.len() == block,
        holds(d, b * block, data),
        0 <= b <= u32::MAX,
{
    reveal(blocks_there);
    let k = choose|k: int| 0 <= k < shared.len() && (#[trigger] shared[k]).0 == data && shared[k].1 == b;
    assert(shared[k].0.len() == block);
}

/// The block of the content `c` with the given number, filled up.
pub open spec fn block_of(c: Seq<u8>, block: int, logical: int) -> Seq<u8> {
    let len = least(block, c.len() - logical * block);
    c.subrange(logical * block, logical * block + len) + zeros(block - len)
}

proof fn piece_of_block(c: Seq<u8>, bs: int, logical: int, rest: int, n: int)
    requires
        0 < bs,
        0 <= logical,
        0 <= rest,
        0 < n <= bs - rest,
        0 <= logical * bs,
        logical * bs + rest + n <= c.len(),
    ensures
        block_of(c, bs, logical).len() == bs,
        block_of(c, bs, logical).subrange(rest, rest + n) == c.subrange(
            logical * bs + rest,
            logical * bs + rest + n,
        ),
{
    assert(block_of(c, bs, logical).subrange(rest, rest + n) =~= c.subrange(
        logical * bs + rest,
        logical * bs + rest + n,
    ));
}

proof fn blank_piece(x: Seq<u8>, rest: int, n: int)
    requires
        is_blank(x),
        0 <= rest,
        0 <= n,
        rest + n <= x.len(),
    ensures
        x.subrange(rest, rest + n) == zeros(n),
{
    assert(x.subrange(rest, rest + n) =~= zeros(n));
}

/// A range inside one block of a file with shared blocks reads back.
proof fn shared_piece_reads_back(
    sb: Superblock,
    d: Seq<u8>,
    v: Volume,
    n: NodeView,
    shared: Seq<(Seq<u8>, u32)>,
    s: Extents,
    c: Seq<u8>,
    at: int,
    len: int,
)
    requires
        1024 <= sb.block_size <= 65536,
        blocks_there(d, shared, sb.block_size as int),
        recorded(
            shared,
            v,
            n,
            sb.block_size as int,
            s,
            ceil_div(n.data_size as int, sb.block_size as int),
        ),
        serves(v, n, c),
        0 <= at,
        0 < len <= sb.block_size - at % (sb.block_size as int),
        at + len <= c.len(),
    ensures
        ext4_piece(sb, d, mapped(as_extents(s)), at, len) == Ok::<Seq<u8>, Fault>(
            c.subrange(at, at + len),
        ),
{
    let bs = sb.block_size as int;
    let logical = at / bs;
    let rest = at % bs;
    let total = ceil_div(n.data_size as int, bs);
    ceil_div_covers(n.data_size as int, bs);
    vstd::arithmetic::div_mod::lemma_fundamental_div_mod(at, bs);
    assert(0 <= logical < total && at == logical * bs + rest && 0 <= logical * bs)
        by (nonlinear_arith)
        requires
            at == bs * logical + rest,
            0 <= at < n.data_size,
            n.data_size <= total * bs,
            0 <= rest < bs,
    ;
    let data = block_of(c, bs, logical);
    let blen = least(bs, n.data_size - logical * bs);
    assert(served(v, n, logical * bs, blen) == Ok::<Seq<u8>, Fault>(
        c.subrange(logical * bs, logical * bs + blen),
    ));
    assert(file_block(v, n, bs, logical) == Ok::<Seq<u8>, Fault>(data));
    piece_of_block(c, bs, logical, rest, len);
    let map = mapped(as_extents(s));
    mapped_extents(s);
    extent_is_there(map, logical, 0);
    match extent_with(map, logical, 0) {
        Some(i) => {
            let e = s[i];
            assert(map[i] == (e.0 as u64, e.1 as u64, e.2 as u64));
            assert(maps(s[i], logical));
            let b = e.1 + (logical - e.0);
            assert(is_stored(shared, data, b)) by {
                reveal(recorded);
            }
            stored_block_is_there(d, shared, bs, data, b);
            assert(0 <= b * bs && b * bs + bs <= u64::MAX) by (nonlinear_arith)
                requires
                    0 <= b <= 0xffff_ffff,
                    0 < bs <= 65536,
            ;
            assert(d.subrange(b * bs + rest, b * bs + rest + len) =~= d.subrange(
                b * bs,
                b * bs + data.len(),
            ).subrange(rest, rest + len));
        },
        None => {
            assert(!covered(s, logical)) by {
                if covered(s, logical) {
                    let i = choose|i: int| 0 <= i < s.len() && maps(#[trigger] s[i], logical);
                    assert(map[i] == (s[i].0 as u64, s[i].1 as u64, s[i].2 as u64));
                    extent_is_found(map, logical, 0, i);
                }
            }
            assert(is_blank(data)) by {
                reveal(recorded);
                assert(file_block(v, n, bs, logical) is Ok);
            }
            blank_piece(data, rest, len);
        },
    }
}

proof fn shared_range_reads_back(
    sb: Superblock,
    d: Seq<u8>,
    v: Volume,
    n: NodeView,
    shared: Seq<(Seq<u8>, u32)>,
    s: Extents,
    c: Seq<u8>,
    at: int,
    len: int,
)
    requires
        1024 <= sb.block_size <= 65536,
        blocks_there(d, shared, sb.block_size as int),
        recorded(
            shared,
            v,
            n,
            sb.block_size as int,
            s,
            ceil_div(n.data_size as int, sb.block_size as int),
        ),
        serves(v, n, c),
        0 <= at,
        0 <= len,
        at + len <= c.len(),
    ensures
        ext4_range(sb, d, mapped(as_extents(s)), at, len) == Ok::<Seq<u8>, Fault>(
            c.subrange(at, at + len),
        ),
    decreases len,
{
    let bs = sb.block_size as int;
    let part = least(bs - at % bs, len);
    if len > 0 {
        shared_piece_reads_back(sb, d, v, n, shared, s, c, at, part);
        shared_range_reads_back(sb, d, v, n, shared, s, c, at + part, len - part);
        assert(c.subrange(at, at + part) + c.subrange(at + part, at + len) =~= c.subrange(
            at,
            at + len,
        ));
    } else {
        assert(c.subrange(at, at + len) =~= Seq::empty());
    }
}

/// A file with shared blocks serves what it was written from.
proof fn shared_file_serves(
    sb: Superblock,
    d: Seq<u8>,
    v: Volume,
    n: NodeView,
    shared: Seq<(Seq<u8>, u32)>,
    q: Placed,
)
    requires
        1024 <= sb.block_size <= 65536,
        blocks_there(d, shared, sb.block_size as int),
        recorded(
            shared,
            v,
            n,
            sb.block_size as int,
            q.extents,
            ceil_div(n.data_size as int, sb.block_size as int),
        ),
    ensures
        serves_the_same(v, n, Volume::Ext4 { sb, d }, mapped_node(n, q)),
{
    let w = Volume::Ext4 { sb, d };
    let r = mapped_node(n, q);
    assert forall|c: Seq<u8>| #[trigger] serves(v, n, c) implies serves(w, r, c) by {
        assert forall|offset: int, len: int|
            0 <= offset && 0 < len && offset + len <= c.len() implies #[trigger] served(
            w,
            r,
            offset,
            len,
        ) == Ok::<Seq<u8>, Fault>(c.subrange(offset, offset + len)) by {
            shared_range_reads_back(sb, d, v, n, shared, q.extents, c, offset, len);
        }
    }
}

// ---------------------------------------------------------------------
// The image
// ---------------------------------------------------------------------
/// All of a fresh image with shared blocks arrives, and its files serve what
/// they were written from.
pub proof fn shared_images_arrive(
    v: Volume,
    list: Seq<NodeView>,
    p: Superblock,
    total: int,
    sb: Superblock,
) -> (r: (Census, Seq<Placed>, Seq<int>, Seq<int>))
    requires
        laid_out(p) is Ok,
        1 <= total,
        sized(v),
        list.len() > 0,
        all_names_fit(list),
        well_numbered(list, Geometry::of(p, total)),
        own_numbers(list),
        ext4_image(v, list, p, total, true) is Ok,
        sb.block_size == p.block_size,
    ensures
        r.0.x == Geometry::of(p, total),
        r.0.list == list,
        spread(r.0.x, list, r.1, r.2, r.3),
        arrived(ext4_image(v, list, p, total, true)->Ok_0, r.0, p, true, r.1),
        files_serve(ext4_image(v, list, p, total, true)->Ok_0, v, r.0, sb, r.1),
        1 <= total <= u32::MAX,
        ext4_image(v, list, p, total, true)->Ok_0.len() == total * p.block_size,
{
    let x = Geometry::of(p, total);
    let bs = x.block as int;
    let n = list.len() as int;
    let d = ext4_image(v, list, p, total, true)->Ok_0;
    shared_images_are_spread(v, list, p, total);
    let (s, placed) = placed_nodes(empty_space(x), v, list, bs, true, n)->Ok_0;
    let (space, done) = all_with_leaves(s.space, placed, bs, n)->Ok_0;
    let c = Census { x, used: space.used, list };
    let m = marks(x, v, list, true);
    let l = leaf_marks(s.space, placed, bs);
    let gw = groups_writes(c, p, true, x.groups());
    let nw = nodes_writes(x, list, done, n);
    let t = laid_all(s.image, gw);
    laid_all_joins(s.image, gw, nw);
    groups_are_inside(c, p, true, x.groups());
    nodes_are_inside(x, list, done, m, l, n);
    writes_inside_keep_the_length(s.image, gw);
    writes_inside_keep_the_length(t, nw);
    assert(d == laid_all(t, nw));
    assert(arrived(d, c, p, true, done)) by {
        shared_metadata_arrives(s.image, c, p, done, m, l);
    }
    assert(blocks_there(d, s.shared, bs)) by {
        reveal(blocks_there);
        assert forall|i: int| 0 <= i < s.shared.len() implies (#[trigger] s.shared[i]).0.len()
            == bs && holds(d, s.shared[i].1 * bs, s.shared[i].0) by {
            let b = s.shared[i].1 as int;
            let y = s.shared[i].0;
            assert(owned(x, list, m, b));
            block_end_is_inside(b, total, bs);
            assert(holds(s.image, b * bs, y));
            groups_spare_blocks(s.image, c, p, true, x.groups(), b, y);
            nodes_spare_blocks(t, x, list, done, m, l, b, y);
        }
    }
    assert(files_serve(d, v, c, sb, done)) by {
        reveal(files_serve);
        assert forall|k: int|
            0 <= k < c.list.len() && !c.list[k].is_dir() && !is_short_link(
                c.list[k],
            ) implies serves_the_same(
            v,
            #[trigger] c.list[k],
            Volume::Ext4 { sb, d },
            mapped_node(c.list[k], done[k]),
        ) by {
            assert(recorded(
                s.shared,
                v,
                list[k],
                bs,
                done[k].extents,
                ceil_div(list[k].data_size as int, bs),
            ));
            shared_file_serves(sb, d, v, list[k], s.shared, done[k]);
        }
    }
    (c, done, m, l)
}

proof fn block_end_is_inside(b: int, total: int, bs: int)
    requires
        0 <= b,
        b + 1 <= total,
        0 < bs,
    ensures
        0 <= b * bs,
        b * bs + bs <= total * bs,
{
    assert(0 <= b * bs && b * bs + bs <= total * bs) by (nonlinear_arith)
        requires
            0 <= b,
            b + 1 <= total,
            0 < bs,
    ;
}

/// The metadata of an image and its directories arrive.
proof fn shared_metadata_arrives(
    s: Seq<u8>,
    c: Census,
    p: Superblock,
    q: Seq<Placed>,
    m: Seq<int>,
    l: Seq<int>,
)
    requires
        spread(c.x, c.list, q, m, l),
        c.list.len() > 0,
        all_names_fit(c.list),
    ensures
        arrived(
            laid_all(
                laid_all(s, groups_writes(c, p, true, c.x.groups())),
                nodes_writes(c.x, c.list, q, c.list.len() as int),
            ),
            c,
            p,
            true,
            q,
        ),
{
    let x = c.x;
    let bs = x.block as int;
    let list = c.list;
    let t = laid_all(s, groups_writes(c, p, true, x.groups()));
    let d = laid_all(t, nodes_writes(x, list, q, list.len() as int));
    spread_node(x, list, q, m, l, 0);
    first_zone(x);
    first_group_arrives(s, c, p, true, x.groups());
    ext4_super_length(c, p, true);
    super::ext4_arrive::descriptors_length(c, x.groups());
    nodes_spare_the_first_group(t, x, list, q, m, l, 1024, ext4_super(c, p, true));
    nodes_spare_the_first_group(
        t,
        x,
        list,
        q,
        m,
        l,
        x.descriptors_at(),
        descriptors(c, x.groups()),
    );
    assert forall|k: int| 0 <= k < list.len() implies holds(
        d,
        inode_offset(x, (#[trigger] list[k]).nid),
        inode_bytes(
            list[k],
            q[k].size,
            q[k].extents,
            q[k].leaves,
            bs,
            x.inode_size as int,
        ),
    ) by {
        inodes_arrive(t, x, list, q, m, l, k);
    }
    assert forall|k: int, i: int| 0 <= k < list.len() && 0 <= i < q[k].leaves.len() implies holds(
        d,
        (#[trigger] q[k].leaves[i]) * bs,
        leaf_bytes(q[k].extents, bs, i),
    ) by {
        leaves_arrive(t, x, list, q, m, l, k, i);
    }
    assert forall|k: int, i: int|
        0 <= k < list.len() && list[k].is_dir() && 0 <= i < q[k].extents.len() implies holds(
        d,
        (#[trigger] q[k].extents[i]).1 * bs,
        dir_part(q[k].data, q[k].extents[i], bs),
    ) by {
        spread_node(x, list, q, m, l, k);
        directories_fill_blocks(list[k], bs);
        directories_arrive(t, x, list, q, m, l, k, i);
    }
    reveal(arrived);
}

} // verus!
