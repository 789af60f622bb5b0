//! Where the content of a fresh ext4 image goes: no two parts share a block,
//! and none stands on the metadata of a group.
use super::blocks::Volume;
use super::ext4_inode::{is_short_link, leaf_count, leaf_room, leaves_match, Extents};
use super::ext4_layout::directory_image;
use super::ext4_place::{
    all_with_leaves, placed_node, placed_nodes, single_blocks, with_leaves, Placed,
};
use super::ext4_space::{
    first_free, first_free_bounds, free_run, free_run_is_free, one_block, runs, taken, Sharing,
    SpaceView, MAX_RUN,
};
use super::extent_laws::short_extents;
use super::node::NodeView;
use crate::math::{ceil_div, ceil_div_covers, least};
use vstd::prelude::*;

verus! {

// ---------------------------------------------------------------------
// Runs
// ---------------------------------------------------------------------
/// The extents map the blocks of a file from `from` up to `to`, one behind
/// the other.
pub open spec fn consecutive(s: Extents, from: int, to: int) -> bool
    decreases s.len(),
{
    if s.len() == 0 {
        from == to
    } else {
        &&& s.last().0 + s.last().2 == to
        &&& s.last().2 > 0
        &&& consecutive(s.drop_last(), from, s.last().0 as int)
    }
}

/// The blocks of the extents lie between `low` and `high`, each extent behind
/// the one in front of it.
pub open spec fn ascending(s: Extents, low: int, high: int) -> bool
    decreases s.len(),
{
    if s.len() == 0 {
        low <= high
    } else {
        &&& s.last().1 + s.last().2 <= high
        &&& ascending(s.drop_last(), low, s.last().1 as int)
    }
}

/// The `n` blocks from `at` on are there, and none of them is set in `used`.
pub open spec fn clear(used: Seq<bool>, at: int, n: int) -> bool {
    &&& 0 <= at
    &&& at + n <= used.len()
    &&& forall|b: int| at <= b < at + n ==> !#[trigger] used[b]
}

/// No block of the extents is set in `used`.
pub open spec fn avoids(s: Extents, used: Seq<bool>) -> bool {
    forall|i: int| 0 <= i < s.len() ==> clear(used, (#[trigger] s[i]).1 as int, s[i].2 as int)
}

/// What is set in one is set in the other.
pub open spec fn within(a: Seq<bool>, b: Seq<bool>) -> bool {
    &&& a.len() == b.len()
    &&& forall|i: int| 0 <= i < a.len() && #[trigger] a[i] ==> b[i]
}

/// What taking blocks for a file comes to.
pub open spec fn took(
    s: SpaceView,
    t: SpaceView,
    all: Extents,
    kept: Seq<bool>,
    low: int,
    to: int,
) -> bool {
    &&& consecutive(all, 0, to)
    &&& ascending(all, low, t.next)
    &&& short_extents(all)
    &&& avoids(all, kept)
    &&& within(kept, t.used)
    &&& s.next <= t.next
    &&& t.used.len() == s.used.len()
}

/// Blocks that are taken are free, follow each other and map the file without
/// a gap.
pub proof fn runs_are_sound(
    s: SpaceView,
    got: Extents,
    logical: int,
    left: int,
    kept: Seq<bool>,
    low: int,
)
    requires
        s.used.len() <= u32::MAX,
        0 <= logical <= s.next,
        0 <= left,
        within(kept, s.used),
        consecutive(got, 0, logical),
        ascending(got, low, s.next),
        short_extents(got),
        avoids(got, kept),
    ensures
        runs(s, got, logical, left) matches Some((t, all)) ==> took(
            s,
            t,
            all,
            kept,
            low,
            logical + left,
        ),
    decreases left,
{
    if left > 0 {
        let at = first_free(s.used, s.next);
        let n = free_run(s.used, at, least(left, MAX_RUN as int));
        first_free_bounds(s.used, s.next);
        free_run_is_free(s.used, at, least(left, MAX_RUN as int));
        if at < s.used.len() && n > 0 {
            let t = SpaceView { used: taken(s.used, at, n), next: at + n };
            let e = (logical as u32, at as u32, n as u32);
            let more = got.push(e);
            assert(more.drop_last() =~= got);
            assert(more.last() == e);
            widen(got, low, s.next, at);
            assert forall|i: int| 0 <= i < more.len() implies (#[trigger] more[i]).2 < 0x8000
                && clear(kept, more[i].1 as int, more[i].2 as int) by {
                if i < got.len() {
                    assert(more[i] == got[i]);
                }
            }
            runs_are_sound(t, more, logical + n, left - n, kept, low);
        }
    }
}

proof fn widen(s: Extents, low: int, high: int, more: int)
    requires
        ascending(s, low, high),
        high <= more,
    ensures
        ascending(s, low, more),
{
}

/// What is known of each of ascending extents.
pub proof fn ascending_bounds(s: Extents, low: int, high: int, i: int)
    requires
        ascending(s, low, high),
        0 <= i < s.len(),
    ensures
        low <= s[i].1,
        s[i].1 + s[i].2 <= high,
    decreases s.len(),
{
    let front = s.drop_last();
    ascending_span(front, low, s.last().1 as int);
    if i < s.len() - 1 {
        ascending_bounds(front, low, s.last().1 as int, i);
        assert(front[i] == s[i]);
    }
}

proof fn ascending_span(s: Extents, low: int, high: int)
    requires
        ascending(s, low, high),
    ensures
        low <= high,
    decreases s.len(),
{
    if s.len() > 0 {
        ascending_span(s.drop_last(), low, s.last().1 as int);
    }
}

/// An extent lies in front of the ones behind it.
pub proof fn ascending_order(s: Extents, low: int, high: int, i: int, j: int)
    requires
        ascending(s, low, high),
        0 <= i < j < s.len(),
    ensures
        s[i].1 + s[i].2 <= s[j].1,
    decreases s.len(),
{
    let front = s.drop_last();
    if j < s.len() - 1 {
        ascending_order(front, low, s.last().1 as int, i, j);
        assert(front[i] == s[i]);
        assert(front[j] == s[j]);
    } else {
        ascending_bounds(front, low, s.last().1 as int, i);
        assert(front[i] == s[i]);
    }
}

/// What is known of each of consecutive extents.
pub proof fn consecutive_bounds(s: Extents, from: int, to: int, i: int)
    requires
        consecutive(s, from, to),
        0 <= i < s.len(),
    ensures
        from <= s[i].0,
        s[i].0 + s[i].2 <= to,
        s[i].2 > 0,
        i + 1 < s.len() ==> s[i].0 + s[i].2 == s[i + 1].0,
        i + 1 == s.len() ==> s[i].0 + s[i].2 == to,
        i == 0 ==> s[i].0 == from,
    decreases s.len(),
{
    let front = s.drop_last();
    consecutive_span(front, from, s.last().0 as int);
    if i < s.len() - 1 {
        consecutive_bounds(front, from, s.last().0 as int, i);
        assert(front[i] == s[i]);
        if i + 1 < front.len() {
            assert(front[i + 1] == s[i + 1]);
        }
    }
}

proof fn consecutive_span(s: Extents, from: int, to: int)
    requires
        consecutive(s, from, to),
    ensures
        from <= to,
        s.len() == 0 ==> from == to,
    decreases s.len(),
{
    if s.len() > 0 {
        consecutive_span(s.drop_last(), from, s.last().0 as int);
    }
}

// ---------------------------------------------------------------------
// Nodes
// ---------------------------------------------------------------------
/// The content of a node: nothing where the inode itself holds it.
pub open spec fn placed_size(n: NodeView, block: int) -> int {
    if n.is_dir() {
        directory_image(n, block).len() as int
    } else {
        n.data_size as int
    }
}

/// The placement of a node in the blocks from `low` up to `high`.
pub open spec fn well_placed(
    n: NodeView,
    p: Placed,
    block: int,
    kept: Seq<bool>,
    low: int,
    high: int,
) -> bool {
    &&& p.size == placed_size(n, block)
    &&& n.is_dir() ==> p.size <= u32::MAX && p.data == directory_image(n, block)
    &&& ascending(p.extents, low, high)
    &&& short_extents(p.extents)
    &&& avoids(p.extents, kept)
    &&& consecutive(
        p.extents,
        0,
        if !n.is_dir() && is_short_link(n) {
            0
        } else {
            ceil_div(p.size, block)
        },
    )
}

/// Where the search for free blocks goes on behind the first `k` nodes.
pub open spec fn mark(
    s: Sharing,
    v: Volume,
    list: Seq<NodeView>,
    block: int,
    shared: bool,
    k: int,
) -> int {
    placed_nodes(s, v, list, block, shared, k)->Ok_0.0.space.next
}

/// Nodes are placed one behind the other, clear of what is kept.
pub proof fn nodes_are_well_placed(
    s: Sharing,
    v: Volume,
    list: Seq<NodeView>,
    block: int,
    k: int,
    kept: Seq<bool>,
)
    requires
        s.space.used.len() <= u32::MAX,
        0 <= s.space.next,
        within(kept, s.space.used),
        block > 0,
        0 <= k <= list.len(),
        placed_nodes(s, v, list, block, false, k) is Ok,
    ensures
        ({
            let (t, done) = placed_nodes(s, v, list, block, false, k)->Ok_0;
            &&& done.len() == k
            &&& t.image == s.image
            &&& t.space.used.len() == s.space.used.len()
            &&& within(kept, t.space.used)
            &&& s.space.next <= t.space.next
            &&& forall|j: int|
                0 <= j < k ==> {
                    &&& well_placed(
                        list[j],
                        #[trigger] done[j],
                        block,
                        kept,
                        mark(s, v, list, block, false, j),
                        mark(s, v, list, block, false, j + 1),
                    )
                    &&& mark(s, v, list, block, false, j + 1) <= t.space.next
                    &&& s.space.next <= mark(s, v, list, block, false, j)
                }
        }),
    decreases k,
{
    if k > 0 {
        nodes_are_well_placed(s, v, list, block, k - 1, kept);
        let (t, done) = placed_nodes(s, v, list, block, false, k - 1)->Ok_0;
        let n = list[k - 1];
        let (u, p) = placed_node(t, v, n, block, false)->Ok_0;
        let size = placed_size(n, block);
        ceil_div_covers(size, block);
        runs_are_sound(t.space, Seq::empty(), 0, ceil_div(size, block), kept, t.space.next);
        let more = done.push(p);
        assert(well_placed(n, p, block, kept, t.space.next, u.space.next));
        assert forall|j: int| 0 <= j < k implies {
            &&& well_placed(
                list[j],
                #[trigger] more[j],
                block,
                kept,
                mark(s, v, list, block, false, j),
                mark(s, v, list, block, false, j + 1),
            )
            &&& mark(s, v, list, block, false, j + 1) <= u.space.next
            &&& s.space.next <= mark(s, v, list, block, false, j)
        } by {
            if j < k - 1 {
                assert(more[j] == done[j]);
            }
        }
    }
}

// ---------------------------------------------------------------------
// Leaves
// ---------------------------------------------------------------------
/// Blocks, each behind the one in front of it, between `low` and `high`.
pub open spec fn ascending_blocks(s: Seq<u32>, low: int, high: int) -> bool
    decreases s.len(),
{
    if s.len() == 0 {
        low <= high
    } else {
        &&& s.last() + 1 <= high
        &&& ascending_blocks(s.drop_last(), low, s.last() as int)
    }
}

/// None of the blocks is set in `used`.
pub open spec fn blocks_avoid(s: Seq<u32>, used: Seq<bool>) -> bool {
    forall|i: int| 0 <= i < s.len() ==> clear(used, (#[trigger] s[i]) as int, 1)
}

/// Single blocks that are taken are free and follow each other.
pub proof fn singles_are_sound(s: SpaceView, n: int, kept: Seq<bool>)
    requires
        s.used.len() <= u32::MAX,
        0 <= s.next,
        0 <= n,
        within(kept, s.used),
    ensures
        single_blocks(s, n) matches Some((t, got)) ==> {
            &&& got.len() == n
            &&& ascending_blocks(got, s.next, t.next)
            &&& blocks_avoid(got, kept)
            &&& within(kept, t.used)
            &&& s.next <= t.next
            &&& t.used.len() == s.used.len()
        },
    decreases n,
{
    if n > 0 {
        singles_are_sound(s, n - 1, kept);
        match single_blocks(s, n - 1) {
            Some((t, got)) => {
                let at = first_free(t.used, t.next);
                first_free_bounds(t.used, t.next);
                match one_block(t) {
                    Some((u, b)) => {
                        let more = got.push(b);
                        assert(more.drop_last() =~= got);
                        assert forall|i: int| 0 <= i < more.len() implies clear(
                            kept,
                            (#[trigger] more[i]) as int,
                            1,
                        ) by {
                            if i < got.len() {
                                assert(more[i] == got[i]);
                            }
                        }
                        assert(ascending_blocks(got, s.next, b as int));
                    },
                    None => {},
                }
            },
            None => {},
        }
    }
}

/// What is known of each of ascending blocks.
pub proof fn ascending_block_bounds(s: Seq<u32>, low: int, high: int, i: int)
    requires
        ascending_blocks(s, low, high),
        0 <= i < s.len(),
    ensures
        low <= s[i] < high,
    decreases s.len(),
{
    let front = s.drop_last();
    ascending_block_span(front, low, s.last() as int);
    if i < s.len() - 1 {
        ascending_block_bounds(front, low, s.last() as int, i);
        assert(front[i] == s[i]);
    }
}

proof fn ascending_block_span(s: Seq<u32>, low: int, high: int)
    requires
        ascending_blocks(s, low, high),
    ensures
        low <= high,
    decreases s.len(),
{
    if s.len() > 0 {
        ascending_block_span(s.drop_last(), low, s.last() as int);
    }
}

/// A block lies in front of the ones behind it.
pub proof fn ascending_block_order(s: Seq<u32>, low: int, high: int, i: int, j: int)
    requires
        ascending_blocks(s, low, high),
        0 <= i < j < s.len(),
    ensures
        s[i] < s[j],
    decreases s.len(),
{
    let front = s.drop_last();
    if j < s.len() - 1 {
        ascending_block_order(front, low, s.last() as int, i, j);
        assert(front[i] == s[i]);
        assert(front[j] == s[j]);
    } else {
        ascending_block_bounds(front, low, s.last() as int, i);
        assert(front[i] == s[i]);
    }
}

/// Where the search for free blocks goes on behind the leaves of the first
/// `k` nodes.
pub open spec fn leaf_mark(s: SpaceView, p: Seq<Placed>, block: int, k: int) -> int {
    all_with_leaves(s, p, block, k)->Ok_0.0.next
}

/// The placement of a node, with leaves in the blocks from `low` up to
/// `high`.
pub open spec fn leaves_placed(
    p: Placed,
    q: Placed,
    block: int,
    kept: Seq<bool>,
    low: int,
    high: int,
) -> bool {
    &&& q == (Placed { leaves: q.leaves, ..p })
    &&& leaves_match(q.extents, q.leaves, block)
    &&& ascending_blocks(q.leaves, low, high)
    &&& blocks_avoid(q.leaves, kept)
}

/// Leaves are placed behind all content, one behind the other.
pub proof fn leaves_are_well_placed(
    s: SpaceView,
    p: Seq<Placed>,
    block: int,
    k: int,
    kept: Seq<bool>,
)
    requires
        s.used.len() <= u32::MAX,
        0 <= s.next,
        within(kept, s.used),
        1024 <= block <= 65536,
        0 <= k <= p.len(),
        all_with_leaves(s, p, block, k) is Ok,
    ensures
        ({
            let (t, done) = all_with_leaves(s, p, block, k)->Ok_0;
            &&& done.len() == k
            &&& t.used.len() == s.used.len()
            &&& within(kept, t.used)
            &&& s.next <= t.next
            &&& forall|j: int|
                0 <= j < k ==> {
                    &&& leaves_placed(
                        p[j],
                        #[trigger] done[j],
                        block,
                        kept,
                        leaf_mark(s, p, block, j),
                        leaf_mark(s, p, block, j + 1),
                    )
                    &&& leaf_mark(s, p, block, j + 1) <= t.next
                    &&& s.next <= leaf_mark(s, p, block, j)
                }
        }),
    decreases k,
{
    if k > 0 {
        leaves_are_well_placed(s, p, block, k - 1, kept);
        let (t, done) = all_with_leaves(s, p, block, k - 1)->Ok_0;
        let (u, q) = with_leaves(t, p[k - 1], block)->Ok_0;
        let n = leaf_count(p[k - 1].extents.len() as int, block);
        ceil_div_covers(p[k - 1].extents.len() as int, leaf_room(block));
        singles_are_sound(t, n, kept);
        let more = done.push(q);
        assert(leaves_placed(p[k - 1], q, block, kept, t.next, u.next));
        assert forall|j: int| 0 <= j < k implies {
            &&& leaves_placed(
                p[j],
                #[trigger] more[j],
                block,
                kept,
                leaf_mark(s, p, block, j),
                leaf_mark(s, p, block, j + 1),
            )
            &&& leaf_mark(s, p, block, j + 1) <= u.next
            &&& s.next <= leaf_mark(s, p, block, j)
        } by {
            if j < k - 1 {
                assert(more[j] == done[j]);
            }
        }
    }
}

} // verus!
