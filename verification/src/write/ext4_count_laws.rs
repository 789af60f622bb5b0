//! Fresh ext4 images: their counts add up.
use super::blocks::Volume;
use super::ext4_build::{ext4_base, well_numbered};
use super::ext4_groups::{
    block_flags, free_blocks, group_dirs, laid_out, used_inodes, Census, Geometry,
};
use super::ext4_images::empty_space;
use super::ext4_inode::{leaf_count, leaf_room, Extents};
use super::ext4_layout::directory_image;
use super::ext4_place::{
    all_with_leaves, file_block, is_blank, placed_nodes, shared_file, single_blocks, with_block,
    Placed,
};
use super::ext4_space::{
    first_free, free_run, free_run_is_free, one_block, runs, shared_block, taken, Sharing,
    SpaceView, MAX_RUN,
};
use super::ext4_space_laws::{
    ascending, ascending_bounds, mark, nodes_are_well_placed, well_placed,
};
use super::node::NodeView;
use crate::fs::ext4::Superblock;
use crate::math::{ceil_div, ceil_div_covers, greatest, least};
use vstd::prelude::*;

verus! {

// ---------------------------------------------------------------------
// Blocks
// ---------------------------------------------------------------------
/// The free blocks of the first `n` groups.
pub open spec fn groups_free_blocks(c: Census, n: int) -> int
    decreases n,
{
    if n <= 0 {
        0
    } else {
        groups_free_blocks(c, n - 1) + free_blocks(c.used, c.x.start(n - 1), c.x.span(n - 1))
    }
}

proof fn free_blocks_split(used: Seq<bool>, at: int, a: int, b: int)
    requires
        0 <= a,
        0 <= b,
    ensures
        free_blocks(used, at, a + b) == free_blocks(used, at, a) + free_blocks(used, at + a, b),
    decreases b,
{
    if b > 0 {
        free_blocks_split(used, at, a, b - 1);
    }
}

proof fn some_blocks_add_up(c: Census, n: int)
    requires
        c.x.wf(),
        0 <= n <= c.x.groups(),
    ensures
        groups_free_blocks(c, n) == free_blocks(
            c.used,
            c.x.first(),
            least(n * c.x.blocks_per_group, c.x.total - c.x.first()),
        ),
    decreases n,
{
    let bpg = c.x.blocks_per_group as int;
    let total = c.x.total as int;
    ceil_div_covers(total, bpg);
    if n > 0 {
        some_blocks_add_up(c, n - 1);
        let at = (n - 1) * bpg;
        let span = c.x.span(n - 1);
        let groups = c.x.groups();
        assert(at < total && n * bpg == at + bpg) by (nonlinear_arith)
            requires
                at == (n - 1) * bpg,
                n <= groups,
                groups * bpg < total + bpg,
                0 < bpg,
        ;
        assert(0 <= at) by (nonlinear_arith)
            requires
                at == (n - 1) * bpg,
                1 <= n,
                0 < bpg,
        ;
        free_blocks_split(c.used, c.x.first(), at, span);
    } else {
        assert(n * bpg == 0) by (nonlinear_arith)
            requires
                n == 0,
        ;
    }
}

/// The free blocks that the superblock counts are those that the descriptors
/// of the groups count. What stands in front of the first group is in use.
pub proof fn free_blocks_add_up(c: Census)
    requires
        c.x.wf(),
        c.x.first() == 1 ==> c.used[0],
    ensures
        groups_free_blocks(c, c.x.groups()) == c.free_blocks(),
{
    let bpg = c.x.blocks_per_group as int;
    let total = c.x.total as int;
    ceil_div_covers(total, bpg);
    let groups = c.x.groups();
    assert(0 <= groups) by (nonlinear_arith)
        requires
            groups * bpg >= total,
            total >= 1,
            bpg > 0,
    ;
    some_blocks_add_up(c, groups);
    free_blocks_split(c.used, 0, c.x.first(), total - c.x.first());
    reveal_with_fuel(free_blocks, 2);
}

/// The bitmap of a group says of each of its blocks whether it is used.
pub proof fn bitmaps_say_what_is_used(x: Geometry, used: Seq<bool>, g: int, i: int)
    requires
        x.wf(),
        0 <= i < x.span(g),
    ensures
        block_flags(x, used, g)[i] == used[x.start(g) + i],
{
}

// ---------------------------------------------------------------------
// Inodes
// ---------------------------------------------------------------------
/// The free inodes of the first `n` groups.
pub open spec fn groups_free_inodes(c: Census, n: int) -> int
    decreases n,
{
    if n <= 0 {
        0
    } else {
        groups_free_inodes(c, n - 1) + (c.x.inodes_per_group - used_inodes(
            c.x,
            c.inodes(),
            n - 1,
        ))
    }
}

proof fn some_inodes_add_up(c: Census, n: int)
    requires
        0 <= n,
        0 <= c.inodes(),
    ensures
        groups_free_inodes(c, n) == greatest(n * c.x.inodes_per_group - c.inodes(), 0),
    decreases n,
{
    let ipg = c.x.inodes_per_group as int;
    if n > 0 {
        some_inodes_add_up(c, n - 1);
        assert(n * ipg == (n - 1) * ipg + ipg) by (nonlinear_arith);
    } else {
        assert(n * ipg == 0) by (nonlinear_arith)
            requires
                n == 0,
        ;
    }
}

/// The free inodes that the superblock counts are those that the descriptors
/// of the groups count.
pub proof fn free_inodes_add_up(c: Census)
    requires
        c.x.wf(),
        c.inodes() <= c.total_inodes(),
    ensures
        groups_free_inodes(c, c.x.groups()) == c.free_inodes(),
{
    let bpg = c.x.blocks_per_group as int;
    let total = c.x.total as int;
    ceil_div_covers(total, bpg);
    let groups = c.x.groups();
    assert(0 <= groups) by (nonlinear_arith)
        requires
            groups * bpg >= total,
            total >= 1,
            bpg > 0,
    ;
    some_inodes_add_up(c, groups);
}

// ---------------------------------------------------------------------
// Directories
// ---------------------------------------------------------------------
/// The directories of the first `n` groups.
pub open spec fn groups_dirs(s: Seq<NodeView>, x: Geometry, n: int) -> int
    decreases n,
{
    if n <= 0 {
        0
    } else {
        groups_dirs(s, x, n - 1) + group_dirs(s, x, n - 1)
    }
}

/// The directories among nodes.
pub open spec fn count_dirs_of(s: Seq<NodeView>) -> int
    decreases s.len(),
{
    if s.len() == 0 {
        0
    } else {
        count_dirs_of(s.drop_last()) + if s.last().is_dir() {
            1int
        } else {
            0
        }
    }
}

proof fn no_dirs(x: Geometry, n: int)
    ensures
        groups_dirs(Seq::empty(), x, n) == 0,
    decreases n,
{
    if n > 0 {
        no_dirs(x, n - 1);
    }
}

proof fn one_more_dir(s: Seq<NodeView>, x: Geometry, n: int)
    requires
        s.len() > 0,
        0 <= n,
        0 <= (s.last().nid - 1) / (x.inodes_per_group as int),
    ensures
        groups_dirs(s, x, n) == groups_dirs(s.drop_last(), x, n) + if s.last().is_dir() && (
        s.last().nid - 1) / (x.inodes_per_group as int) < n {
            1int
        } else {
            0
        },
    decreases n,
{
    if n > 0 {
        one_more_dir(s, x, n - 1);
    }
}

proof fn some_directories_add_up(s: Seq<NodeView>, x: Geometry)
    requires
        x.wf(),
        forall|k: int|
            0 <= k < s.len() ==> 1 <= (#[trigger] s[k]).nid <= x.groups() * x.inodes_per_group,
    ensures
        groups_dirs(s, x, x.groups()) == count_dirs_of(s),
    decreases s.len(),
{
    if s.len() == 0 {
        assert(s =~= Seq::empty());
        no_dirs(x, x.groups());
    } else {
        let front = s.drop_last();
        assert forall|k: int| 0 <= k < front.len() implies 1 <= (#[trigger] front[k]).nid
            <= x.groups() * x.inodes_per_group by {
            assert(front[k] == s[k]);
        }
        some_directories_add_up(front, x);
        let nid = s.last().nid as int;
        let ipg = x.inodes_per_group as int;
        let groups = x.groups();
        assert(s[s.len() - 1] == s.last());
        let g = (nid - 1) / ipg;
        vstd::arithmetic::div_mod::lemma_fundamental_div_mod(nid - 1, ipg);
        assert(0 <= g < groups) by (nonlinear_arith)
            requires
                nid - 1 == ipg * g + (nid - 1) % ipg,
                0 <= (nid - 1) % ipg < ipg,
                1 <= nid <= groups * ipg,
                0 < ipg,
        ;
        one_more_dir(s, x, groups);
    }
}

/// Every directory is counted by the descriptor of one group.
pub proof fn directories_add_up(s: Seq<NodeView>, x: Geometry)
    requires
        x.wf(),
        well_numbered(s, x),
    ensures
        groups_dirs(s, x, x.groups()) == count_dirs_of(s),
{
    some_directories_add_up(s, x);
}

// ---------------------------------------------------------------------
// What is used
// ---------------------------------------------------------------------
/// What is used is what is kept, and everything up to where the search for
/// free blocks goes on.
pub open spec fn filled_up(s: SpaceView, kept: Seq<bool>) -> bool {
    &&& 0 <= s.next <= s.used.len()
    &&& s.used.len() == kept.len()
    &&& forall|b: int|
        0 <= b < s.used.len() ==> (#[trigger] s.used[b] <==> kept[b] || b < s.next)
}

proof fn nothing_free_before(used: Seq<bool>, at: int)
    requires
        0 <= at <= used.len(),
    ensures
        at <= first_free(used, at) <= used.len(),
        forall|b: int| at <= b < first_free(used, at) ==> #[trigger] used[b],
    decreases used.len() - at,
{
    if at < used.len() && used[at] {
        nothing_free_before(used, at + 1);
    }
}

proof fn taking_fills_up(s: SpaceView, kept: Seq<bool>, n: int)
    requires
        filled_up(s, kept),
        0 <= n,
        first_free(s.used, s.next) + n <= s.used.len(),
    ensures
        ({
            let at = first_free(s.used, s.next);
            filled_up(SpaceView { used: taken(s.used, at, n), next: at + n }, kept)
        }),
{
    nothing_free_before(s.used, s.next);
}

proof fn one_block_fills_up(s: SpaceView, kept: Seq<bool>)
    requires
        filled_up(s, kept),
    ensures
        one_block(s) matches Some((t, _)) ==> filled_up(t, kept) && s.next <= t.next,
{
    nothing_free_before(s.used, s.next);
    if first_free(s.used, s.next) < s.used.len() {
        taking_fills_up(s, kept, 1);
    }
}

proof fn runs_fill_up(s: SpaceView, got: Extents, logical: int, left: int, kept: Seq<bool>)
    requires
        filled_up(s, kept),
    ensures
        runs(s, got, logical, left) matches Some((t, _)) ==> filled_up(t, kept) && s.next
            <= t.next,
    decreases greatest(left, 0),
{
    if left > 0 {
        let at = first_free(s.used, s.next);
        let n = free_run(s.used, at, least(left, MAX_RUN as int));
        nothing_free_before(s.used, s.next);
        free_run_is_free(s.used, at, least(left, MAX_RUN as int));
        if at < s.used.len() && n > 0 {
            taking_fills_up(s, kept, n);
            runs_fill_up(
                SpaceView { used: taken(s.used, at, n), next: at + n },
                got.push((logical as u32, at as u32, n as u32)),
                logical + n,
                left - n,
                kept,
            );
        }
    }
}

proof fn shared_files_fill_up(
    s: Sharing,
    v: Volume,
    n: NodeView,
    block: int,
    got: Extents,
    logical: int,
    kept: Seq<bool>,
)
    requires
        filled_up(s.space, kept),
    ensures
        shared_file(s, v, n, block, got, logical) matches Ok((t, _)) ==> filled_up(t.space, kept)
            && s.space.next <= t.space.next,
    decreases greatest(ceil_div(n.data_size as int, block) - logical, 0),
{
    if logical < ceil_div(n.data_size as int, block) {
        if let Ok(data) = file_block(v, n, block, logical) {
            let full = got.len() >= 4 * leaf_room(block);
            if is_blank(data) && !full {
                shared_files_fill_up(s, v, n, block, got, logical + 1, kept);
            } else if let Some((t, b)) = shared_block(s, data, full) {
                one_block_fills_up(s.space, kept);
                shared_files_fill_up(
                    t,
                    v,
                    n,
                    block,
                    with_block(got, logical, b),
                    logical + 1,
                    kept,
                );
            }
        }
    }
}

proof fn nodes_fill_up(
    s: Sharing,
    v: Volume,
    list: Seq<NodeView>,
    block: int,
    shared: bool,
    k: int,
    kept: Seq<bool>,
)
    requires
        filled_up(s.space, kept),
    ensures
        placed_nodes(s, v, list, block, shared, k) matches Ok((t, _)) ==> filled_up(t.space, kept)
            && s.space.next <= t.space.next,
    decreases k,
{
    if k > 0 {
        nodes_fill_up(s, v, list, block, shared, k - 1, kept);
        if let Ok((t, _)) = placed_nodes(s, v, list, block, shared, k - 1) {
            let n = list[k - 1];
            let size = if n.is_dir() {
                directory_image(n, block).len() as int
            } else {
                n.data_size as int
            };
            shared_files_fill_up(t, v, n, block, Seq::empty(), 0, kept);
            runs_fill_up(t.space, Seq::empty(), 0, ceil_div(size, block), kept);
        }
    }
}

proof fn singles_fill_up(s: SpaceView, n: int, kept: Seq<bool>)
    requires
        filled_up(s, kept),
    ensures
        single_blocks(s, n) matches Some((t, _)) ==> filled_up(t, kept) && s.next <= t.next,
    decreases n,
{
    if n > 0 {
        singles_fill_up(s, n - 1, kept);
        if let Some((t, _)) = single_blocks(s, n - 1) {
            one_block_fills_up(t, kept);
        }
    }
}

proof fn leaves_fill_up(s: SpaceView, p: Seq<Placed>, block: int, k: int, kept: Seq<bool>)
    requires
        filled_up(s, kept),
    ensures
        all_with_leaves(s, p, block, k) matches Ok((t, _)) ==> filled_up(t, kept) && s.next
            <= t.next,
    decreases k,
{
    if k > 0 {
        leaves_fill_up(s, p, block, k - 1, kept);
        if let Ok((t, _)) = all_with_leaves(s, p, block, k - 1) {
            singles_fill_up(t, leaf_count(p[k - 1].extents.len() as int, block), kept);
        }
    }
}

/// The bitmaps of a fresh image mark what stands in front of the groups, and
/// every block up to the last one that was taken: blocks are taken from the
/// front on, and none is left out.
pub proof fn blocks_are_used_from_the_front(
    v: Volume,
    list: Seq<NodeView>,
    p: Superblock,
    total: int,
    shared: bool,
)
    requires
        1 <= total,
        ext4_base(v, list, p, total, shared) is Ok,
    ensures
        ({
            let x = Geometry::of(p, total);
            let bs = x.block as int;
            let n = list.len() as int;
            let (s, placed) = placed_nodes(empty_space(x), v, list, bs, shared, n)->Ok_0;
            let (space, _) = all_with_leaves(
                s.space,
                placed,
                bs,
                placed.len() as int,
            )->Ok_0;
            filled_up(space, x.reserved())
        }),
{
    let x = Geometry::of(p, total);
    let bs = x.block as int;
    let n = list.len() as int;
    nodes_fill_up(empty_space(x), v, list, bs, shared, n, x.reserved());
    let (s, placed) = placed_nodes(empty_space(x), v, list, bs, shared, n)->Ok_0;
    leaves_fill_up(s.space, placed, bs, placed.len() as int, x.reserved());
}

/// Blocks below where the search goes on are used.
proof fn placed_blocks_are_used(
    space: SpaceView,
    kept: Seq<bool>,
    e: Extents,
    low: int,
    high: int,
    i: int,
    b: int,
)
    requires
        filled_up(space, kept),
        0 <= low,
        ascending(e, low, high),
        high <= space.next,
        0 <= i < e.len(),
        e[i].1 <= b < e[i].1 + e[i].2,
    ensures
        0 <= b < space.used.len(),
        space.used[b],
{
    ascending_bounds(e, low, high, i);
}

/// Where the nodes of an image without shared blocks stand.
proof fn nodes_stand_below(v: Volume, list: Seq<NodeView>, x: Geometry, k: int)
    requires
        x.wf(),
        0 <= k < list.len(),
        placed_nodes(
            empty_space(x),
            v,
            list,
            x.block as int,
            false,
            list.len() as int,
        ) is Ok,
    ensures
        ({
            let bs = x.block as int;
            let (s, placed) = placed_nodes(
                empty_space(x),
                v,
                list,
                bs,
                false,
                list.len() as int,
            )->Ok_0;
            let low = mark(empty_space(x), v, list, bs, false, k);
            let high = mark(empty_space(x), v, list, bs, false, k + 1);
            &&& placed.len() == list.len()
            &&& 0 <= low
            &&& high <= s.space.next
            &&& ascending(placed[k].extents, low, high)
        }),
{
    let bs = x.block as int;
    let s0 = empty_space(x);
    nodes_are_well_placed(s0, v, list, bs, list.len() as int, x.reserved());
    let (s, placed) = placed_nodes(s0, v, list, bs, false, list.len() as int)->Ok_0;
    assert(well_placed(
        list[k],
        placed[k],
        bs,
        x.reserved(),
        mark(s0, v, list, bs, false, k),
        mark(s0, v, list, bs, false, k + 1),
    ));
}

/// Leaves leave the extents of nodes alone.
proof fn leaves_keep_extents(s: SpaceView, p: Seq<Placed>, block: int, n: int, k: int)
    requires
        all_with_leaves(s, p, block, n) is Ok,
        0 <= k < n,
    ensures
        ({
            let done = all_with_leaves(s, p, block, n)->Ok_0.1;
            done.len() == n && done[k].extents == p[k].extents
        }),
    decreases n,
{
    if n > 1 {
        leaves_keep_extents(s, p, block, n - 1, if k < n - 1 {
            k
        } else {
            0
        });
    }
    let (t, done) = all_with_leaves(s, p, block, n - 1)->Ok_0;
    assert(done.len() == n - 1);
}

/// Every block of a file or directory of an image without shared blocks is
/// marked in the bitmaps.
pub proof fn blocks_of_nodes_are_marked(
    v: Volume,
    list: Seq<NodeView>,
    p: Superblock,
    total: int,
    k: int,
    i: int,
    b: int,
)
    requires
        laid_out(p) is Ok,
        1 <= total,
        ext4_base(v, list, p, total, false) is Ok,
        0 <= k < list.len(),
        ({
            let q = ext4_base(v, list, p, total, false)->Ok_0.1[k];
            0 <= i < q.extents.len() && q.extents[i].1 <= b < q.extents[i].1 + q.extents[i].2
        }),
    ensures
        ({
            let x = Geometry::of(p, total);
            let bs = x.block as int;
            let n = list.len() as int;
            let (s, placed) = placed_nodes(empty_space(x), v, list, bs, false, n)->Ok_0;
            let (space, _) = all_with_leaves(s.space, placed, bs, placed.len() as int)->Ok_0;
            space.used[b]
        }),
{
    let x = Geometry::of(p, total);
    let bs = x.block as int;
    let n = list.len() as int;
    let s0 = empty_space(x);
    assert(x.wf());
    let (s, placed) = placed_nodes(s0, v, list, bs, false, n)->Ok_0;
    nodes_stand_below(v, list, x, k);
    leaves_keep_extents(s.space, placed, bs, n, k);
    nodes_fill_up(s0, v, list, bs, false, n, x.reserved());
    leaves_fill_up(s.space, placed, bs, n, x.reserved());
    let space = all_with_leaves(s.space, placed, bs, n)->Ok_0.0;
    placed_blocks_are_used(
        space,
        x.reserved(),
        placed[k].extents,
        mark(s0, v, list, bs, false, k),
        mark(s0, v, list, bs, false, k + 1),
        i,
        b,
    );
}

} // verus!
