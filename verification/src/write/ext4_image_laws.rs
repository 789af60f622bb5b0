//! Fresh ext4 images: the tree that was written is the tree that is read.
use super::blocks::{served, Volume};
use super::ext4_arrive::spread;
use super::ext4_build::{ext4_image, well_numbered};
use super::ext4_groups::{ext4_super, laid_out, Census, Geometry, RESERVED_INODES};
use super::ext4_images::{arrived, images_arrive, own_numbers};
use super::ext4_layout::{
    all_names_fit, all_with_numbers, inode_tree, inodes_are_numbered, numbers_grow, with_numbers,
    FIRST_INODE, ROOT_INODE,
};
use super::ext4_place::{file_block, is_blank, Placed};
use super::ext4_plan::{
    estimated, first_total, fresh_ext4, growth_limit, grown, more_blocks_more_groups,
    looked_through, planned_total, plans_have_room, spare_blocks, Demand, Estimate, MAX_SEEN,
};
use super::ext4_read_back::{ext4_superblocks_read_back, fresh_profile};
use super::ext4_shared_images::shared_images_arrive;
use super::ext4_source::ext4_tree;
use super::ext4_space::block_hash;
use super::ext4_tree_laws::{
    ext4_trees_read_back, files_serve, finished, own_blocks_serve, parents_fit, readable_ext4,
    regained_ext4,
};
use super::fresh_laws::holds;
use super::image_laws::{throughout, throughout_the_list};
use super::node::{preorder, NodeView};
use super::read_back::{listed, nodes_are_listed, renumbered, sized};
use super::serve_laws::serves;
use crate::error::Fault;
use crate::fs::ext4::{superblock, Superblock};
use crate::math::{ceil_div, ceil_div_covers, greatest, least};
use vstd::arithmetic::power2::pow2;
use vstd::prelude::*;

verus! {

/// The number of the parent fits into a directory record.
pub open spec fn has_small_parent() -> spec_fn(NodeView) -> bool {
    |n: NodeView| n.parent_nid <= u32::MAX
}

/// Giving out inode numbers keeps the rest of a tree.
proof fn inode_numbers_keep_the_tree(n: NodeView, nid: int, parent: int, next: int)
    requires
        1 <= parent <= u32::MAX,
        1 <= nid <= u32::MAX,
        1 <= next,
        with_numbers(n, nid, parent, next).1 <= 0x1_0000_0000,
    ensures
        renumbered(with_numbers(n, nid, parent, next).0, n),
        throughout(with_numbers(n, nid, parent, next).0, has_small_parent()),
    decreases n,
{
    all_inode_numbers_keep(n.children, nid, next);
}

proof fn all_inode_numbers_keep(s: Seq<NodeView>, parent: int, next: int)
    requires
        1 <= parent <= u32::MAX,
        1 <= next,
        all_with_numbers(s, parent, next).1 <= 0x1_0000_0000,
    ensures
        ({
            let t = all_with_numbers(s, parent, next).0;
            &&& t.len() == s.len()
            &&& next <= all_with_numbers(s, parent, next).1
            &&& forall|i: int| 0 <= i < s.len() ==> renumbered(t[i], #[trigger] s[i])
            &&& forall|i: int| 0 <= i < t.len() ==> throughout(#[trigger] t[i], has_small_parent())
        }),
    decreases s,
{
    if s.len() > 0 {
        let front = s.subrange(0, s.len() - 1);
        let last = s[s.len() - 1];
        let b = all_with_numbers(front, parent, next);
        numbers_grow(last, b.1, parent, b.1 + 1);
        all_inode_numbers_keep(front, parent, next);
        inode_numbers_keep_the_tree(last, b.1, parent, b.1 + 1);
        let t = all_with_numbers(s, parent, next).0;
        assert forall|i: int| 0 <= i < s.len() implies renumbered(t[i], #[trigger] s[i]) by {
            if i < s.len() - 1 {
                assert(front[i] == s[i]);
                assert(t[i] == b.0[i]);
            }
        }
        assert forall|i: int| 0 <= i < t.len() implies throughout(
            #[trigger] t[i],
            has_small_parent(),
        ) by {
            if i < s.len() - 1 {
                assert(t[i] == b.0[i]);
            }
        }
    }
}

pub proof fn renumbered_stays_readable(t: NodeView, n: NodeView, depth: int)
    requires
        renumbered(t, n),
        readable_ext4(n, depth),
    ensures
        readable_ext4(t, depth),
    decreases n,
{
    assert forall|i: int| 0 <= i < t.children.len() implies readable_ext4(
        #[trigger] t.children[i],
        depth + 1,
    ) && t.children[i].name != "."@ && t.children[i].name != ".."@ by {
        assert(renumbered(t.children[i], n.children[i]));
        assert(readable_ext4(n.children[i], depth + 1));
        renumbered_stays_readable(t.children[i], n.children[i], depth + 1);
    }
}

proof fn numbers_do_not_matter(
    w: Volume,
    v: Volume,
    inode_size: int,
    r: NodeView,
    t: NodeView,
    n: NodeView,
)
    requires
        renumbered(t, n),
        regained_ext4(w, v, inode_size, r, t),
    ensures
        regained_ext4(w, v, inode_size, r, n),
    decreases n,
{
    if !n.is_dir() {
        assert forall|c: Seq<u8>| #[trigger] serves(v, n, c) implies serves(w, r, c) by {
            assert forall|offset: int, len: int|
                0 <= offset && 0 < len && offset + len <= c.len() implies #[trigger] served(
                v,
                t,
                offset,
                len,
            ) == Ok::<Seq<u8>, Fault>(c.subrange(offset, offset + len)) by {
                assert(served(v, n, offset, len) == served(v, t, offset, len));
            }
            assert(serves(v, t, c));
        }
    }
    assert forall|i: int| 0 <= i < n.children.len() implies r.children[i].name == (
    #[trigger] n.children[i]).name && regained_ext4(
        w,
        v,
        inode_size,
        r.children[i],
        n.children[i],
    ) by {
        assert(renumbered(t.children[i], n.children[i]));
        assert(regained_ext4(w, v, inode_size, r.children[i], t.children[i]));
        numbers_do_not_matter(w, v, inode_size, r.children[i], t.children[i], n.children[i]);
    }
}

/// A tree with inode numbers is the tree without them, and its nodes can be
/// found by their numbers.
pub proof fn inode_trees_are_listed(root: NodeView)
    requires
        inode_tree(root) is Ok,
    ensures
        ({
            let tree = inode_tree(root)->Ok_0;
            let list = preorder(tree);
            &&& 1 <= list.len()
            &&& list.len() + RESERVED_INODES <= u32::MAX
            &&& tree.nid == ROOT_INODE
            &&& forall|k: int|
                0 <= k < list.len() ==> 1 <= (#[trigger] list[k]).nid <= list.len()
                    + RESERVED_INODES
            &&& own_numbers(list)
            &&& parents_fit(list)
            &&& listed(list, tree)
            &&& renumbered(tree, root)
        }),
{
    let tree = inode_tree(root)->Ok_0;
    let list = preorder(tree);
    inodes_are_numbered(root);
    inode_numbers_keep_the_tree(root, ROOT_INODE as int, ROOT_INODE as int, FIRST_INODE as int);
    assert forall|k: int| 0 <= k < list.len() implies (#[trigger] list[k]).parent_nid
        <= u32::MAX by {
        throughout_the_list(tree, has_small_parent(), k);
    }
    nodes_are_listed(list, tree, root);
    assert(list[0] == tree);
}

pub proof fn powers_of_blocks(bits: nat)
    requires
        10 <= bits <= 15,
    ensures
        1024 <= pow2(bits) <= 32768,
{
    vstd::arithmetic::power2::lemma2_to64();
}

/// All of a fresh image arrives, and its files serve what they were written
/// from.
proof fn images_serve(
    v: Volume,
    list: Seq<NodeView>,
    p: Superblock,
    total: int,
    shared: bool,
    sb: Superblock,
) -> (r: (Census, Seq<Placed>, Seq<int>, Seq<int>))
    requires
        laid_out(p) is Ok,
        1 <= total,
        sized(v),
        list.len() > 0,
        all_names_fit(list),
        well_numbered(list, Geometry::of(p, total)),
        own_numbers(list),
        ext4_image(v, list, p, total, shared) is Ok,
        sb.block_size == p.block_size,
    ensures
        r.0.x == Geometry::of(p, total),
        r.0.list == list,
        spread(r.0.x, list, r.1, r.2, r.3),
        arrived(ext4_image(v, list, p, total, shared)->Ok_0, r.0, p, shared, r.1),
        files_serve(ext4_image(v, list, p, total, shared)->Ok_0, v, r.0, sb, r.1),
        1 <= total <= u32::MAX,
        ext4_image(v, list, p, total, shared)->Ok_0.len() == total * p.block_size,
{
    if shared {
        shared_images_arrive(v, list, p, total, sb)
    } else {
        let (c, q, m, l) = images_arrive(v, list, p, total);
        own_blocks_serve(ext4_image(v, list, p, total, false)->Ok_0, v, c, sb, q, m);
        (c, q, m, l)
    }
}

/// A fresh image is finished, and its superblock reads back.
pub proof fn images_are_finished(
    v: Volume,
    root: NodeView,
    p: Superblock,
    total: int,
    shared: bool,
    bits: nat,
) -> (r: (Census, Seq<Placed>, Seq<int>, Seq<int>))
    requires
        laid_out(p) is Ok,
        10 <= bits <= 15,
        p.block_size == pow2(bits),
        1 <= total,
        sized(v),
        inode_tree(root) is Ok,
        all_names_fit(preorder(inode_tree(root)->Ok_0)),
        well_numbered(preorder(inode_tree(root)->Ok_0), Geometry::of(p, total)),
        ext4_image(v, preorder(inode_tree(root)->Ok_0), p, total, shared) is Ok,
    ensures
        ({
            let d = ext4_image(v, preorder(inode_tree(root)->Ok_0), p, total, shared)->Ok_0;
            &&& finished(d, v, r.0, p, shared, r.1, r.2, r.3)
            &&& r.0.x == Geometry::of(p, total)
            &&& r.0.list == preorder(inode_tree(root)->Ok_0)
            &&& r.0.x.block <= 32768
            &&& d.len() == total * p.block_size
            &&& superblock(d) == Ok::<Superblock, Fault>(fresh_profile(r.0.x, p, shared))
        }),
{
    let tree = inode_tree(root)->Ok_0;
    let list = preorder(tree);
    inode_trees_are_listed(root);
    let d = ext4_image(v, list, p, total, shared)->Ok_0;
    let sb = fresh_profile(Geometry::of(p, total), p, shared);
    let (c, q, m, l) = images_serve(v, list, p, total, shared, sb);
    powers_of_blocks(bits);
    assert(2048 <= d.len()) by {
        reveal(arrived);
        assert(c.x.descriptors_at() >= 2048);
    }
    assert(holds(d, 1024, ext4_super(c, p, shared))) by {
        reveal(arrived);
    }
    ext4_superblocks_read_back(d, c, p, shared, bits);
    (c, q, m, l)
}

/// A fresh ext4 image reads back, whether equal blocks are shared or not: its
/// superblock holds the sizes it was laid out by, and its tree is the tree that
/// was written.
pub proof fn ext4_images_read_back(
    v: Volume,
    root: NodeView,
    p: Superblock,
    total: int,
    shared: bool,
    bits: nat,
    name: Seq<char>,
)
    requires
        laid_out(p) is Ok,
        10 <= bits <= 15,
        p.block_size == pow2(bits),
        1 <= total,
        sized(v),
        readable_ext4(root, 0),
        inode_tree(root) is Ok,
        all_names_fit(preorder(inode_tree(root)->Ok_0)),
        well_numbered(preorder(inode_tree(root)->Ok_0), Geometry::of(p, total)),
        ext4_image(v, preorder(inode_tree(root)->Ok_0), p, total, shared) is Ok,
    ensures
        ({
            let d = ext4_image(v, preorder(inode_tree(root)->Ok_0), p, total, shared)->Ok_0;
            let sb = fresh_profile(Geometry::of(p, total), p, shared);
            &&& d.len() == total * p.block_size
            &&& superblock(d) == Ok::<Superblock, Fault>(sb)
            &&& ext4_tree(sb, d, ROOT_INODE as u32, name, 0) matches Ok(r) && r.name == name
                && regained_ext4(Volume::Ext4 { sb, d }, v, p.inode_size as int, r, root)
        }),
{
    let tree = inode_tree(root)->Ok_0;
    let list = preorder(tree);
    inode_trees_are_listed(root);
    let d = ext4_image(v, list, p, total, shared)->Ok_0;
    let sb = fresh_profile(Geometry::of(p, total), p, shared);
    let (c, q, m, l) = images_are_finished(v, root, p, total, shared, bits);
    renumbered_stays_readable(tree, root, 0);
    ext4_trees_read_back(d, v, c, p, shared, q, m, l, tree, name, 0);
    let r = ext4_tree(sb, d, ROOT_INODE as u32, name, 0)->Ok_0;
    numbers_do_not_matter(Volume::Ext4 { sb, d }, v, p.inode_size as int, r, tree, root);
}

proof fn grown_images_are_images(
    v: Volume,
    list: Seq<NodeView>,
    p: Superblock,
    total: int,
    shared: bool,
    limit: int,
    last: Seq<char>,
    rounds: int,
) -> (end: int)
    requires
        grown(v, list, p, total, shared, limit, last, rounds) is Ok,
        laid_out(p) is Ok,
        1 <= total,
        well_numbered(list, Geometry::of(p, total)),
        limit <= u32::MAX,
        total <= u64::MAX,
    ensures
        total <= end,
        well_numbered(list, Geometry::of(p, end)),
        ext4_image(v, list, p, end, shared) == Ok::<Seq<u8>, Fault>(
            grown(v, list, p, total, shared, limit, last, rounds)->Ok_0.0,
        ),
    decreases rounds,
{
    match ext4_image(v, list, p, total, shared) {
        Ok(_) => total,
        Err(Fault::Invalid(m)) => {
            more_blocks_more_groups(list, p, total, total + p.blocks_per_group);
            grown_images_are_images(
                v,
                list,
                p,
                total + p.blocks_per_group,
                shared,
                limit,
                m,
                rounds - 1,
            )
        },
        Err(_) => total,
    }
}

proof fn looking_counts(e: Estimate, v: Volume, n: NodeView, block: int, logical: int)
    requires
        0 <= e.blocks,
    ensures
        looked_through(e, v, n, block, logical) matches Ok(f) ==> 0 <= f.blocks,
    decreases greatest(ceil_div(n.data_size as int, block) - logical, 0),
{
    if logical < ceil_div(n.data_size as int, block) && !e.full {
        if let Ok(data) = file_block(v, n, block, logical) {
            if is_blank(data) {
                looking_counts(e, v, n, block, logical + 1);
            } else {
                let seen = e.seen.insert(block_hash(data));
                let f = Estimate {
                    blocks: if e.seen.contains(block_hash(data)) {
                        e.blocks
                    } else {
                        e.blocks + 1
                    },
                    seen,
                    full: seen.len() > MAX_SEEN,
                };
                looking_counts(f, v, n, block, logical + 1);
            }
        }
    }
}

proof fn estimates_are_counts(v: Volume, list: Seq<NodeView>, block: int, shared: bool, k: int)
    requires
        0 < block,
    ensures
        estimated(v, list, block, shared, k) matches Ok(e) ==> 0 <= e.blocks,
    decreases k,
{
    if k > 0 {
        estimates_are_counts(v, list, block, shared, k - 1);
        if let Ok(e) = estimated(v, list, block, shared, k - 1) {
            looking_counts(e, v, list[k - 1], block, 0);
        }
    }
}

/// A plan has room for the inodes of all nodes.
proof fn plans_fit(v: Volume, list: Seq<NodeView>, p: Superblock, reserve_mb: u64, shared: bool)
    requires
        laid_out(p) is Ok,
        planned_total(v, list, p, reserve_mb, shared) is Ok,
        forall|k: int|
            0 <= k < list.len() ==> 1 <= (#[trigger] list[k]).nid <= list.len() + RESERVED_INODES,
    ensures
        ({
            let planned = planned_total(v, list, p, reserve_mb, shared)->Ok_0;
            &&& 1 <= planned <= u32::MAX
            &&& well_numbered(list, Geometry::of(p, planned))
        }),
{
    let bs = p.block_size as int;
    let e = estimated(v, list, bs, shared, list.len() as int)->Ok_0;
    estimates_are_counts(v, list, bs, shared, list.len() as int);
    let spare = spare_blocks(reserve_mb, bs);
    ceil_div_covers(least(reserve_mb * 1048576, u64::MAX as int), bs);
    let demand = Demand { data: e.blocks, nodes: list.len() as int, spare };
    plans_have_room(p, demand);
    let planned = planned_total(v, list, p, reserve_mb, shared)->Ok_0;
    let bpg = p.blocks_per_group as int;
    let g = planned / bpg;
    vstd::arithmetic::div_mod::lemma_fundamental_div_mod(planned, bpg);
    ceil_div_covers(planned, bpg);
    let c = ceil_div(planned, bpg);
    assert(c == g) by (nonlinear_arith)
        requires
            bpg * g == planned,
            c * bpg >= planned,
            c * bpg < planned + bpg,
            bpg > 0,
    ;
}

/// An image that was built is the image of the tree, with some number of blocks.
pub proof fn rebuilds_are_images(
    v: Volume,
    root: NodeView,
    p: Superblock,
    shared: bool,
    reserve_mb: u64,
    keep: bool,
    compact: bool,
) -> (end: int)
    requires
        fresh_ext4(v, root, p, shared, reserve_mb, keep, compact) is Ok,
    ensures
        laid_out(p) is Ok,
        1 <= end,
        inode_tree(root) is Ok,
        all_names_fit(preorder(inode_tree(root)->Ok_0)),
        well_numbered(preorder(inode_tree(root)->Ok_0), Geometry::of(p, end)),
        ext4_image(v, preorder(inode_tree(root)->Ok_0), p, end, shared) == Ok::<Seq<u8>, Fault>(
            fresh_ext4(v, root, p, shared, reserve_mb, keep, compact)->Ok_0,
        ),
{
    let tree = inode_tree(root)->Ok_0;
    let list = preorder(tree);
    inode_trees_are_listed(root);
    let planned = planned_total(v, list, p, reserve_mb, shared && compact)->Ok_0;
    plans_fit(v, list, p, reserve_mb, shared && compact);
    let total = first_total(p, planned, keep && !compact);
    more_blocks_more_groups(list, p, planned, total);
    grown_images_are_images(
        v,
        list,
        p,
        total,
        shared,
        growth_limit(p, total),
        "out of space"@,
        16,
    )
}

/// Rebuilding an ext4 image keeps the tree, whether equal blocks are shared or
/// not: reading the image that was built gives back what it was built from.
pub proof fn ext4_rebuilds_read_back(
    v: Volume,
    root: NodeView,
    p: Superblock,
    shared: bool,
    reserve_mb: u64,
    keep: bool,
    compact: bool,
    bits: nat,
    name: Seq<char>,
)
    requires
        10 <= bits <= 15,
        p.block_size == pow2(bits),
        sized(v),
        readable_ext4(root, 0),
        fresh_ext4(v, root, p, shared, reserve_mb, keep, compact) is Ok,
    ensures
        ({
            let d = fresh_ext4(v, root, p, shared, reserve_mb, keep, compact)->Ok_0;
            &&& superblock(d) matches Ok(sb) && {
                &&& sb.block_size == p.block_size
                &&& d.len() == sb.block_count * sb.block_size
                &&& sb.inode_size == p.inode_size
                &&& sb.blocks_per_group == p.blocks_per_group
                &&& sb.inodes_per_group == p.inodes_per_group
                &&& ext4_tree(sb, d, ROOT_INODE as u32, name, 0) matches Ok(r) && r.name == name
                    && regained_ext4(Volume::Ext4 { sb, d }, v, p.inode_size as int, r, root)
            }
        }),
{
    let end = rebuilds_are_images(v, root, p, shared, reserve_mb, keep, compact);
    ext4_images_read_back(v, root, p, end, shared, bits, name);
}

} // verus!
