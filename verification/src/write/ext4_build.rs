//! Writing fresh ext4 images.
use super::blocks::{BlockSource, Volume};
use super::ext4_groups::{
    group_bounds, groups_writes, laid_out, Census, Counted, Geometry, RESERVED_INODES,
};
use super::ext4_inode::{
    build_inode, build_leaf, count_leaf_room, inode_bytes, is_short_link, has_short_target,
    leaf_bytes, leaf_room, leaves_match, Extents,
};
use super::ext4_layout::all_names_fit;
use super::ext4_place::{
    all_with_leaves, place_leaves, place_nodes, placed_nodes, placed_views, Placed, Placement,
};
use super::ext4_space::{Sharing, Space, SpaceView};
use super::fresh::{push_fitting, writes_fit};
use super::node::{ref_views, Node, NodeView};
use super::patch::{patch_views, Patch, PatchView};
use super::rebuild::{copy_content, moved, put_fitting, stored};
use super::store::{laid, laid_all, ByteStore};
use crate::buf::{copy_range, zeros};
use crate::error::{fail, Error, Fault};
use crate::fs::ext4::Superblock;
use crate::math::{ceil_div_covers, least};
use vstd::prelude::*;

verus! {

// ---------------------------------------------------------------------
// Metadata of nodes
// ---------------------------------------------------------------------
/// Where an inode is.
pub open spec fn inode_offset(x: Geometry, nid: u64) -> int {
    let g = (nid - 1) / (x.inodes_per_group as int);
    let i = (nid - 1) % (x.inodes_per_group as int);
    x.table(g) * x.block + i * x.inode_size
}

/// The writes of the first `n` leaves of an extent tree.
pub open spec fn leaf_writes(p: Placed, block: int, n: int) -> Seq<PatchView>
    decreases n,
{
    if n <= 0 {
        Seq::empty()
    } else {
        leaf_writes(p, block, n - 1).push(
            PatchView { at: p.leaves[n - 1] * block, data: leaf_bytes(p.extents, block, n - 1) },
        )
    }
}

/// The part of a directory that an extent maps.
pub open spec fn dir_part(data: Seq<u8>, e: (u32, u32, u32), block: int) -> Seq<u8> {
    let from = least(e.0 * block, data.len() as int);
    data.subrange(from, least((e.0 + e.2) * block, data.len() as int))
}

/// The writes of a directory, by its first `n` extents.
pub open spec fn dir_writes(p: Placed, block: int, n: int) -> Seq<PatchView>
    decreases n,
{
    if n <= 0 {
        Seq::empty()
    } else {
        let e = p.extents[n - 1];
        dir_writes(p, block, n - 1).push(
            PatchView { at: e.1 * block, data: dir_part(p.data, e, block) },
        )
    }
}

/// The writes of a node: its inode, the leaves of its extent tree, and for a
/// directory its content.
pub open spec fn node_writes(x: Geometry, n: NodeView, p: Placed) -> Seq<PatchView> {
    seq![
        PatchView {
            at: inode_offset(x, n.nid),
            data: inode_bytes(
                n,
                p.size,
                p.extents,
                p.leaves,
                x.block as int,
                x.inode_size as int,
            ),
        },
    ] + leaf_writes(p, x.block as int, p.leaves.len() as int) + if n.is_dir() {
        dir_writes(p, x.block as int, p.extents.len() as int)
    } else {
        Seq::empty()
    }
}

/// The writes of the first `k` nodes.
pub open spec fn nodes_writes(x: Geometry, list: Seq<NodeView>, p: Seq<Placed>, k: int) -> Seq<
    PatchView,
>
    decreases k,
{
    if k <= 0 {
        Seq::empty()
    } else {
        nodes_writes(x, list, p, k - 1) + node_writes(x, list[k - 1], p[k - 1])
    }
}

/// Every node has an inode that the image has room for.
pub open spec fn well_numbered(list: Seq<NodeView>, x: Geometry) -> bool {
    &&& list.len() + RESERVED_INODES <= x.groups() * x.inodes_per_group
    &&& forall|k: int|
        0 <= k < list.len() ==> 1 <= (#[trigger] list[k]).nid <= list.len() + RESERVED_INODES
}

/// The group of an inode and its place in the table of the group.
pub proof fn inode_is_inside(x: Geometry, list: Seq<NodeView>, k: int)
    requires
        x.wf(),
        well_numbered(list, x),
        0 <= k < list.len(),
    ensures
        0 <= (list[k].nid - 1) / (x.inodes_per_group as int) < x.groups(),
        0 <= (list[k].nid - 1) % (x.inodes_per_group as int) < x.inodes_per_group,
        list[k].nid - 1 == ((list[k].nid - 1) / (x.inodes_per_group as int)) * x.inodes_per_group
            + (list[k].nid - 1) % (x.inodes_per_group as int),
{
    let i = list[k].nid - 1;
    let ipg = x.inodes_per_group as int;
    vstd::arithmetic::div_mod::lemma_fundamental_div_mod(i, ipg);
    vstd::arithmetic::div_mod::lemma_mod_bound(i, ipg);
    vstd::arithmetic::div_mod::lemma_div_pos_is_pos(i, ipg);
    let q = i / ipg;
    assert(ipg * q == q * ipg) by (nonlinear_arith);
    let n = x.groups();
    assert(q < n) by (nonlinear_arith)
        requires
            q * ipg <= i,
            i < n * ipg,
            0 < ipg,
    ;
}

fn find_inode(x: &Geometry, nid: u64, list: Ghost<Seq<NodeView>>, k: Ghost<int>) -> (at: u64)
    requires
        x.wf(),
        well_numbered(list@, *x),
        0 <= k@ < list@.len(),
        list@[k@].nid == nid,
    ensures
        at == inode_offset(*x, nid),
        at <= 0x4_0000_0000_0000,
{
    proof {
        inode_is_inside(*x, list@, k@);
    }
    let g = (nid - 1) / x.inodes_per_group;
    let i = (nid - 1) % x.inodes_per_group;
    proof {
        group_bounds(*x, g as int);
    }
    let table = x.find_table(g);
    proof {
        assert(table * x.block <= 0x2_0000_0001 * 65536) by (nonlinear_arith)
            requires
                0 <= table <= 0x2_0000_0001,
                0 <= x.block <= 65536,
        ;
        assert(i * x.inode_size <= 0x8_0000 * 65536) by (nonlinear_arith)
            requires
                0 <= i <= 0x8_0000,
                0 <= x.inode_size <= 65536,
        ;
    }
    table * x.block + i * x.inode_size
}

fn push_leaves(p: &Placement, block: usize, out: &mut Vec<Patch>)
    requires
        1024 <= block <= 65536,
        leaves_match(p.extents@, p.leaves@, block as int),
    ensures
        writes_fit(patch_views(old(out)@)) ==> writes_fit(patch_views(final(out)@)),
        patch_views(final(out)@) == patch_views(old(out)@) + leaf_writes(
            p@,
            block as int,
            p.leaves@.len() as int,
        ),
{
    let ghost before = patch_views(out@);
    let ghost bs = block as int;
    let room = count_leaf_room(block);
    let mut i: usize = 0;
    assert(before + leaf_writes(p@, bs, 0) =~= before);
    while i < p.leaves.len()
        invariant
            writes_fit(before) ==> writes_fit(patch_views(out@)),
            i <= p.leaves@.len(),
            bs == block,
            1024 <= block <= 65536,
            room == leaf_room(bs),
            1 <= room <= 340,
            leaves_match(p.extents@, p.leaves@, bs),
            patch_views(out@) == before + leaf_writes(p@, bs, i as int),
        decreases p.leaves.len() - i,
    {
        proof {
            let n = p.extents@.len() as int;
            ceil_div_covers(n, room as int);
            let c = p.leaves@.len() as int;
            assert(i * room < n) by (nonlinear_arith)
                requires
                    i + 1 <= c,
                    c * room < n + room,
                    room >= 1,
            ;
            let at = p.leaves@[i as int];
            assert(at * block <= 0xffff_ffff * 65536) by (nonlinear_arith)
                requires
                    0 <= at <= 0xffff_ffff,
                    0 <= block <= 65536,
            ;
        }
        let leaf = build_leaf(&p.extents, block, i);
        push_fitting(out, p.leaves[i] as u64 * block as u64, leaf);
        assert(patch_views(out@) =~= before + leaf_writes(p@, bs, i + 1));
        i += 1;
    }
}

fn push_dir(p: &Placement, block: usize, out: &mut Vec<Patch>)
    requires
        p.data@.len() <= u32::MAX,
        1024 <= block <= 65536,
    ensures
        writes_fit(patch_views(old(out)@)) ==> writes_fit(patch_views(final(out)@)),
        patch_views(final(out)@) == patch_views(old(out)@) + dir_writes(
            p@,
            block as int,
            p.extents@.len() as int,
        ),
{
    let ghost before = patch_views(out@);
    let ghost bs = block as int;
    let size = p.data.len() as u64;
    let mut i: usize = 0;
    assert(before + dir_writes(p@, bs, 0) =~= before);
    while i < p.extents.len()
        invariant
            writes_fit(before) ==> writes_fit(patch_views(out@)),
            i <= p.extents@.len(),
            bs == block,
            1024 <= block <= 65536,
            size == p.data@.len(),
            size <= u32::MAX,
            patch_views(out@) == before + dir_writes(p@, bs, i as int),
        decreases p.extents.len() - i,
    {
        let e = p.extents[i];
        proof {
            assert(e.0 * block <= 0xffff_ffff * 65536 && e.1 * block <= 0xffff_ffff * 65536
                && (e.0 + e.2) * block <= 0x1_ffff_fffe * 65536) by (nonlinear_arith)
                requires
                    0 <= e.0 <= 0xffff_ffff,
                    0 <= e.1 <= 0xffff_ffff,
                    0 <= e.2 <= 0xffff_ffff,
                    0 <= block <= 65536,
            ;
            assert(e.0 * block <= (e.0 + e.2) * block) by (nonlinear_arith)
                requires
                    0 <= e.2,
                    0 <= block,
            ;
        }
        let a = e.0 as u64 * block as u64;
        let b = (e.0 as u64 + e.2 as u64) * block as u64;
        let from = if a < size {
            a
        } else {
            size
        };
        let to = if b < size {
            b
        } else {
            size
        };
        let part = copy_range(&p.data, from as usize, to as usize);
        push_fitting(out, e.1 as u64 * block as u64, part);
        assert(patch_views(out@) =~= before + dir_writes(p@, bs, i + 1));
        i += 1;
    }
}

fn push_nodes(x: &Geometry, list: &Vec<&Node>, placements: &Vec<Placement>, out: &mut Vec<Patch>)
    requires
        x.wf(),
        well_numbered(ref_views(list@), *x),
        placements@.len() == list@.len(),
        forall|k: int|
            0 <= k < placements@.len() ==> (#[trigger] placements@[k]).data@.len() <= u32::MAX,
        forall|k: int|
            0 <= k < placements@.len() ==> leaves_match(
                (#[trigger] placements@[k]).extents@,
                placements@[k].leaves@,
                x.block as int,
            ),
    ensures
        writes_fit(patch_views(old(out)@)) ==> writes_fit(patch_views(final(out)@)),
        patch_views(final(out)@) == patch_views(old(out)@) + nodes_writes(
            *x,
            ref_views(list@),
            placed_views(placements@),
            list@.len() as int,
        ),
{
    let ghost before = patch_views(out@);
    let ghost s = ref_views(list@);
    let ghost ps = placed_views(placements@);
    let block = x.block as usize;
    let mut i: usize = 0;
    assert(before + nodes_writes(*x, s, ps, 0) =~= before);
    while i < list.len()
        invariant
            writes_fit(before) ==> writes_fit(patch_views(out@)),
            x.wf(),
            block == x.block,
            s == ref_views(list@),
            ps == placed_views(placements@),
            well_numbered(s, *x),
            i <= list@.len() == s.len(),
            placements@.len() == list@.len(),
            forall|k: int|
                0 <= k < placements@.len() ==> (#[trigger] placements@[k]).data@.len() <= u32::MAX,
            forall|k: int|
                0 <= k < placements@.len() ==> leaves_match(
                    (#[trigger] placements@[k]).extents@,
                    placements@[k].leaves@,
                    x.block as int,
                ),
            patch_views(out@) == before + nodes_writes(*x, s, ps, i as int),
        decreases list.len() - i,
    {
        let node = list[i];
        let p = &placements[i];
        assert(s[i as int] == node@);
        assert(ps[i as int] == p@);
        assert(leaves_match(placements@[i as int].extents@, placements@[i as int].leaves@, block as int));
        let at = find_inode(x, node.nid, Ghost(s), Ghost(i as int));
        let inode = build_inode(
            node,
            p.size,
            &p.extents,
            &p.leaves,
            block,
            x.inode_size as usize,
        );
        push_fitting(out, at, inode);
        push_leaves(p, block, out);
        if node.is_dir() {
            push_dir(p, block, out);
        }
        assert(patch_views(out@) =~= before + nodes_writes(*x, s, ps, i + 1));
        i += 1;
    }
}

// ---------------------------------------------------------------------
// Content of files
// ---------------------------------------------------------------------
/// The image with the content of a file, by its first `k` extents.
pub open spec fn with_extents(
    s: Seq<u8>,
    v: Volume,
    n: NodeView,
    extents: Extents,
    block: int,
    k: int,
) -> Result<Seq<u8>, Fault>
    decreases k,
{
    if k <= 0 {
        Ok(s)
    } else {
        match with_extents(s, v, n, extents, block, k - 1) {
            Err(e) => Err(e),
            Ok(t) => {
                let e = extents[k - 1];
                let to = least((e.0 + e.2) * block, n.data_size as int);
                match moved(v, n, least(e.0 * block, to), to) {
                    Err(e) => Err(e),
                    Ok(x) => Ok(laid(t, e.1 * block, x)),
                }
            },
        }
    }
}

proof fn extents_fail_early(
    s: Seq<u8>,
    v: Volume,
    n: NodeView,
    extents: Extents,
    block: int,
    i: int,
    k: int,
)
    requires
        i <= k,
        with_extents(s, v, n, extents, block, i) is Err,
    ensures
        with_extents(s, v, n, extents, block, k) == with_extents(s, v, n, extents, block, i),
    decreases k,
{
    if i < k {
        if k > 0 {
            extents_fail_early(s, v, n, extents, block, i, k - 1);
        }
    }
}

/// The image with the content of the files among the first `k` nodes.
pub open spec fn with_contents(
    s: Seq<u8>,
    v: Volume,
    list: Seq<NodeView>,
    p: Seq<Placed>,
    block: int,
    k: int,
) -> Result<Seq<u8>, Fault>
    decreases k,
{
    if k <= 0 {
        Ok(s)
    } else {
        match with_contents(s, v, list, p, block, k - 1) {
            Err(e) => Err(e),
            Ok(t) => if list[k - 1].is_dir() || is_short_link(list[k - 1]) {
                Ok(t)
            } else {
                with_extents(
                    t,
                    v,
                    list[k - 1],
                    p[k - 1].extents,
                    block,
                    p[k - 1].extents.len() as int,
                )
            },
        }
    }
}

proof fn contents_fail_early(
    s: Seq<u8>,
    v: Volume,
    list: Seq<NodeView>,
    p: Seq<Placed>,
    block: int,
    i: int,
    k: int,
)
    requires
        i <= k,
        with_contents(s, v, list, p, block, i) is Err,
    ensures
        with_contents(s, v, list, p, block, k) == with_contents(s, v, list, p, block, i),
    decreases k,
{
    if i < k {
        if k > 0 {
            contents_fail_early(s, v, list, p, block, i, k - 1);
        }
    }
}

/// Copies the content of a file to its extents.
pub fn copy_node_extents<B: BlockSource, T: ByteStore>(
    source: &mut B,
    node: &Node,
    extents: &Vec<(u32, u32, u32)>,
    block: usize,
    store: &mut T,
) -> (r: Result<(), Error>)
    requires
        old(source).wf(),
        1024 <= block <= 65536,
    ensures
        final(source).wf(),
        final(source).volume() == old(source).volume(),
        final(source).unreliable() == old(source).unreliable(),
        final(store).failing() == old(store).failing(),
        stored(
            old(source).unreliable() || old(store).failing(),
            r,
            final(store).content(),
            with_extents(
                old(store).content(),
                old(source).volume(),
                node@,
                extents@,
                block as int,
                extents@.len() as int,
            ),
        ),
{
    let ghost v = source.volume();
    let ghost first = store.content();
    let ghost bs = block as int;
    let mut i: usize = 0;
    while i < extents.len()
        invariant
            source.wf(),
            v == source.volume(),
            v == old(source).volume(),
            source.unreliable() == old(source).unreliable(),
            store.failing() == old(store).failing(),
            first == old(store).content(),
            bs == block,
            1024 <= block <= 65536,
            i <= extents@.len(),
            with_extents(first, v, node@, extents@, bs, i as int) == Ok::<Seq<u8>, Fault>(
                store.content(),
            ),
        decreases extents.len() - i,
    {
        let e = extents[i];
        proof {
            assert(e.0 * block <= 0xffff_ffff * 65536 && e.1 * block <= 0xffff_ffff * 65536
                && (e.0 + e.2) * block <= 0x1_ffff_fffe * 65536) by (nonlinear_arith)
                requires
                    0 <= e.0 <= 0xffff_ffff,
                    0 <= e.1 <= 0xffff_ffff,
                    0 <= e.2 <= 0xffff_ffff,
                    0 <= block <= 65536,
            ;
        }
        let b = (e.0 as u64 + e.2 as u64) * block as u64;
        let to = if b < node.data_size {
            b
        } else {
            node.data_size
        };
        let a = e.0 as u64 * block as u64;
        let from = if a < to {
            a
        } else {
            to
        };
        match copy_content(source, node, from, to, e.1 as u64 * block as u64, store) {
            Ok(_) => {},
            Err(x) => {
                proof {
                    if with_extents(first, v, node@, extents@, bs, i + 1) is Err {
                        extents_fail_early(
                            first,
                            v,
                            node@,
                            extents@,
                            bs,
                            i + 1,
                            extents@.len() as int,
                        );
                    }
                }
                return Err(x);
            },
        }
        i += 1;
    }
    Ok(())
}

fn copy_contents<B: BlockSource, T: ByteStore>(
    source: &mut B,
    list: &Vec<&Node>,
    placements: &Vec<Placement>,
    block: usize,
    store: &mut T,
) -> (r: Result<(), Error>)
    requires
        old(source).wf(),
        1024 <= block <= 65536,
        placements@.len() == list@.len(),
    ensures
        final(source).wf(),
        final(source).volume() == old(source).volume(),
        final(source).unreliable() == old(source).unreliable(),
        final(store).failing() == old(store).failing(),
        stored(
            old(source).unreliable() || old(store).failing(),
            r,
            final(store).content(),
            with_contents(
                old(store).content(),
                old(source).volume(),
                ref_views(list@),
                placed_views(placements@),
                block as int,
                list@.len() as int,
            ),
        ),
{
    let ghost v = source.volume();
    let ghost first = store.content();
    let ghost s = ref_views(list@);
    let ghost ps = placed_views(placements@);
    let ghost bs = block as int;
    let mut i: usize = 0;
    while i < list.len()
        invariant
            source.wf(),
            v == source.volume(),
            v == old(source).volume(),
            source.unreliable() == old(source).unreliable(),
            store.failing() == old(store).failing(),
            first == old(store).content(),
            bs == block,
            1024 <= block <= 65536,
            s == ref_views(list@),
            ps == placed_views(placements@),
            i <= list@.len() == s.len(),
            placements@.len() == list@.len(),
            with_contents(first, v, s, ps, bs, i as int) == Ok::<Seq<u8>, Fault>(store.content()),
        decreases list.len() - i,
    {
        let node = list[i];
        assert(s[i as int] == node@);
        assert(ps[i as int] == placements@[i as int]@);
        if !node.is_dir() && !has_short_target(node) {
            match copy_node_extents(source, node, &placements[i].extents, block, store) {
                Ok(_) => {},
                Err(e) => {
                    proof {
                        if with_contents(first, v, s, ps, bs, i + 1) is Err {
                            contents_fail_early(first, v, s, ps, bs, i + 1, s.len() as int);
                        }
                    }
                    return Err(e);
                },
            }
        }
        i += 1;
    }
    Ok(())
}

// ---------------------------------------------------------------------
// Images
// ---------------------------------------------------------------------
/// What is in a fresh image before the content of files is copied to it.
pub open spec fn ext4_base(
    v: Volume,
    list: Seq<NodeView>,
    p: Superblock,
    total: int,
    shared: bool,
) -> Result<(Seq<u8>, Seq<Placed>), Fault> {
    let x = Geometry::of(p, total);
    let block = x.block as int;
    if total > u32::MAX {
        fail("ext4 image is too large"@)
    } else if !x.roomy() {
        fail("ext4 group has no room for inode table"@)
    } else {
        match placed_nodes(
            (Sharing {
                space: SpaceView { used: x.reserved(), next: 0 },
                shared: Seq::empty(),
                image: zeros(total * block),
            }),
            v,
            list,
            block,
            shared,
            list.len() as int,
        ) {
            Err(e) => Err(e),
            Ok((s, placed)) => match all_with_leaves(
                s.space,
                placed,
                block,
                placed.len() as int,
            ) {
                Err(e) => Err(e),
                Ok((space, done)) => {
                    let c = Census { x, used: space.used, list };
                    Ok(
                        (
                            laid_all(
                                s.image,
                                groups_writes(c, p, shared, x.groups()) + nodes_writes(
                                    x,
                                    list,
                                    done,
                                    list.len() as int,
                                ),
                            ),
                            done,
                        ),
                    )
                },
            },
        }
    }
}

/// A fresh image of `total` blocks.
pub open spec fn ext4_image(
    v: Volume,
    list: Seq<NodeView>,
    p: Superblock,
    total: int,
    shared: bool,
) -> Result<Seq<u8>, Fault> {
    match ext4_base(v, list, p, total, shared) {
        Err(e) => Err(e),
        Ok((s, placed)) => if shared {
            Ok(s)
        } else {
            with_contents(s, v, list, placed, p.block_size as int, list.len() as int)
        },
    }
}

/// Writes a fresh image of `total` blocks.
pub fn rebuild_groups_to<B: BlockSource, T: ByteStore>(
    source: &mut B,
    p: &Superblock,
    list: &Vec<&Node>,
    total: u64,
    shared: bool,
    store: &mut T,
) -> (r: Result<(), Error>)
    requires
        old(source).wf(),
        laid_out(*p) is Ok,
        1 <= total,
        all_names_fit(ref_views(list@)),
        well_numbered(ref_views(list@), Geometry::of(*p, total as int)),
    ensures
        final(source).wf(),
        final(source).volume() == old(source).volume(),
        final(source).unreliable() == old(source).unreliable(),
        final(store).failing() == old(store).failing(),
        stored(
            old(source).unreliable() || old(store).failing(),
            r,
            final(store).content(),
            ext4_image(old(source).volume(), ref_views(list@), *p, total as int, shared),
        ),
{
    let ghost s = ref_views(list@);
    let ghost v = source.volume();
    if total > u32::MAX as u64 {
        return Err(Error::invalid("ext4 image is too large"));
    }
    let x = Geometry::new(p, total);
    if !x.is_roomy() {
        return Err(Error::invalid("ext4 group has no room for inode table"));
    }
    let block = x.block as usize;
    let used = x.reserve_blocks();
    proof {
        assert(total * block <= 0xffff_ffff * 65536) by (nonlinear_arith)
            requires
                0 <= total <= 0xffff_ffff,
                0 <= block <= 65536,
        ;
        assert(0 <= total * block) by (nonlinear_arith)
            requires
                0 <= total,
                0 <= block,
        ;
    }
    store.set_len(0)?;
    store.set_len(total * x.block)?;
    assert(store.content() =~= zeros(total * block));
    let mut space = Space { used, next: 0 };
    let mut placements = place_nodes(source, list, block, shared, &mut space, store)?;
    let ghost image = store.content();
    let ghost placed = placed_views(placements@);
    place_leaves(&mut space, &mut placements, block)?;
    let ghost done = placed_views(placements@);
    let mut patches: Vec<Patch> = Vec::new();
    assert(patch_views(patches@) =~= Seq::empty());
    let counted = Counted { x, used: &space.used, list };
    counted.push_groups(p, shared, &mut patches);
    push_nodes(&x, list, &placements, &mut patches);
    proof {
        let c = Census { x, used: space.used@, list: s };
        assert(patch_views(patches@) =~= groups_writes(c, *p, shared, x.groups()) + nodes_writes(
            x,
            s,
            done,
            s.len() as int,
        ));
        assert(ext4_base(v, s, *p, total as int, shared) == Ok::<(Seq<u8>, Seq<Placed>), Fault>(
            (laid_all(image, patch_views(patches@)), done),
        ));
    }
    put_fitting(store, &patches)?;
    if shared {
        return Ok(());
    }
    copy_contents(source, list, &placements, block, store)
}

} // verus!
