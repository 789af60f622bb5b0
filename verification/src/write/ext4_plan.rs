//! How large a fresh ext4 image is.
use super::blocks::{BlockSource, Volume};
use super::ext4_build::{ext4_image, rebuild_groups_to, well_numbered};
use super::ext4_groups::{check_layout, laid_out, plannable, Geometry};
use super::ext4_inode::{has_short_target, is_short_link};
use super::ext4_layout::{
    all_names_fit, check_names, directory, directory_image, inode_tree, inodes_are_numbered,
    names_fit, number_inodes,
};
use super::ext4_place::{check_blank, file_block, is_blank, read_file_block};
use super::ext4_space::{block_hash, hash_block};
use super::node::{nodes, preorder, ref_views, Node, NodeView};
use super::rebuild::stored;
use super::store::ByteStore;
use crate::error::{fail, Error, Fault};
use crate::fs::ext4::Superblock;
use crate::math::{ceil_div, ceil_div_covers, div_up, greatest, least};
use crate::text::{same, with_text};
use std::collections::HashSet;
use vstd::prelude::*;

verus! {

/// The most blocks whose numbers an estimate keeps.
pub const MAX_SEEN: usize = 2_000_000;

// ---------------------------------------------------------------------
// Data
// ---------------------------------------------------------------------
/// The blocks that the content of a node takes.
pub open spec fn node_blocks(n: NodeView, block: int) -> int {
    if n.is_dir() {
        ceil_div(directory_image(n, block).len() as int, block)
    } else if is_short_link(n) {
        0
    } else {
        ceil_div(n.data_size as int, block)
    }
}

/// An estimate: blocks so far, the numbers of the blocks that were seen, and
/// whether there are too many of them to go on looking.
pub struct Estimate {
    pub blocks: int,
    pub seen: Set<u64>,
    pub full: bool,
}

/// The estimate with the blocks of a file from `logical` on: blank blocks
/// and those seen before take no room.
pub open spec fn looked_through(e: Estimate, v: Volume, n: NodeView, block: int, logical: int) -> Result<
    Estimate,
    Fault,
>
    decreases greatest(ceil_div(n.data_size as int, block) - logical, 0),
{
    if logical >= ceil_div(n.data_size as int, block) || e.full {
        Ok(e)
    } else {
        match file_block(v, n, block, logical) {
            Err(x) => Err(x),
            Ok(data) => if is_blank(data) {
                looked_through(e, v, n, block, logical + 1)
            } else {
                let seen = e.seen.insert(block_hash(data));
                looked_through(
                    Estimate {
                        blocks: if e.seen.contains(block_hash(data)) {
                            e.blocks
                        } else {
                            e.blocks + 1
                        },
                        seen,
                        full: seen.len() > MAX_SEEN,
                    },
                    v,
                    n,
                    block,
                    logical + 1,
                )
            },
        }
    }
}

/// The estimate with a node. Where blocks are not shared, or too many were
/// seen, all blocks of a file count.
pub open spec fn with_node_blocks(e: Estimate, v: Volume, n: NodeView, block: int, shared: bool) -> Result<
    Estimate,
    Fault,
> {
    if n.is_dir() && directory_image(n, block).len() > u32::MAX {
        fail("ext4 directory is too large"@)
    } else if n.is_dir() || is_short_link(n) || !shared || e.full {
        Ok(Estimate { blocks: e.blocks + node_blocks(n, block), ..e })
    } else {
        match looked_through(e, v, n, block, 0) {
            Err(x) => Err(x),
            Ok(t) => if t.full {
                Ok(Estimate { blocks: t.blocks + node_blocks(n, block), ..t })
            } else {
                Ok(t)
            },
        }
    }
}

/// The estimate for the first `k` nodes.
pub open spec fn estimated(v: Volume, list: Seq<NodeView>, block: int, shared: bool, k: int) -> Result<
    Estimate,
    Fault,
>
    decreases k,
{
    if k <= 0 {
        Ok(Estimate { blocks: 0, seen: Set::empty(), full: false })
    } else {
        match estimated(v, list, block, shared, k - 1) {
            Err(x) => Err(x),
            Ok(e) => with_node_blocks(e, v, list[k - 1], block, shared),
        }
    }
}

proof fn estimate_fails_early(
    v: Volume,
    list: Seq<NodeView>,
    block: int,
    shared: bool,
    i: int,
    k: int,
)
    requires
        i <= k,
        estimated(v, list, block, shared, i) is Err,
    ensures
        estimated(v, list, block, shared, k) == estimated(v, list, block, shared, i),
    decreases k,
{
    if i < k {
        if k > 0 {
            estimate_fails_early(v, list, block, shared, i, k - 1);
        }
    }
}

/// Looks through the blocks of a file. The result is the number of blocks
/// that were not seen before, and whether too many were seen.
fn look_through<B: BlockSource>(
    source: &mut B,
    node: &Node,
    block: usize,
    seen: &mut HashSet<u64>,
    start: Ghost<int>,
) -> (r: Result<(u64, bool), Error>)
    requires
        old(source).wf(),
        1024 <= block <= 65536,
    ensures
        final(source).wf(),
        final(source).volume() == old(source).volume(),
        final(source).unreliable() == old(source).unreliable(),
        match r {
            Ok((n, full)) => looked_through(
                (Estimate { blocks: start@, seen: old(seen)@, full: false }),
                old(source).volume(),
                node@,
                block as int,
                0,
            ) == Ok::<Estimate, Fault>(
                (Estimate { blocks: start@ + n, seen: final(seen)@, full }),
            ) && n <= ceil_div(node.data_size as int, block as int),
            Err(x) => looked_through(
                (Estimate { blocks: start@, seen: old(seen)@, full: false }),
                old(source).volume(),
                node@,
                block as int,
                0,
            ) == Err::<Estimate, Fault>(x@) || (x is Io && old(source).unreliable()),
        },
{
    let ghost v = source.volume();
    let ghost bs = block as int;
    let ghost whole = looked_through(
        (Estimate { blocks: start@, seen: seen@, full: false }),
        v,
        node@,
        bs,
        0,
    );
    let count = div_up(node.data_size, block as u64);
    let mut n: u64 = 0;
    let mut full = false;
    let mut logical: u64 = 0;
    while logical < count && !full
        invariant
            source.wf(),
            v == source.volume(),
            v == old(source).volume(),
            source.unreliable() == old(source).unreliable(),
            bs == block,
            1024 <= block <= 65536,
            count == ceil_div(node.data_size as int, bs),
            logical <= count,
            n <= logical,
            whole == looked_through(
                (Estimate { blocks: start@, seen: old(seen)@, full: false }),
                v,
                node@,
                bs,
                0,
            ),
            whole == looked_through(
                (Estimate { blocks: start@ + n, seen: seen@, full }),
                v,
                node@,
                bs,
                logical as int,
            ),
        decreases count - logical,
    {
        let data = match read_file_block(source, node, block, logical) {
            Ok(x) => x,
            Err(e) => {
                return Err(e);
            },
        };
        if !check_blank(&data) {
            let fresh = seen.insert(hash_block(&data));
            if fresh {
                n = n + 1;
            }
            full = seen.len() > MAX_SEEN;
        }
        logical = logical + 1;
    }
    Ok((n, full))
}

/// Estimates the blocks that a node adds, and whether too many were seen.
fn estimate_node<B: BlockSource>(
    source: &mut B,
    node: &Node,
    block: usize,
    shared: bool,
    seen: &mut HashSet<u64>,
    full: bool,
    start: Ghost<int>,
) -> (r: Result<(u64, bool), Error>)
    requires
        old(source).wf(),
        1024 <= block <= 65536,
        block % 4 == 0,
        names_fit(node@),
    ensures
        final(source).wf(),
        final(source).volume() == old(source).volume(),
        final(source).unreliable() == old(source).unreliable(),
        match r {
            Ok((n, now_full)) => with_node_blocks(
                (Estimate { blocks: start@, seen: old(seen)@, full }),
                old(source).volume(),
                node@,
                block as int,
                shared,
            ) == Ok::<Estimate, Fault>(
                (Estimate { blocks: start@ + n, seen: final(seen)@, full: now_full }),
            ),
            Err(x) => with_node_blocks(
                (Estimate { blocks: start@, seen: old(seen)@, full }),
                old(source).volume(),
                node@,
                block as int,
                shared,
            ) == Err::<Estimate, Fault>(x@) || (x is Io && old(source).unreliable()),
        },
{
    let ghost bs = block as int;
    if node.is_dir() {
        return match directory(node, block) {
            Some(d) if d.len() as u64 <= u32::MAX as u64 => Ok(
                (div_up(d.len() as u64, block as u64), full),
            ),
            _ => Err(Error::invalid("ext4 directory is too large")),
        };
    }
    if has_short_target(node) {
        return Ok((0, full));
    }
    let all = div_up(node.data_size, block as u64);
    proof {
        ceil_div_covers(node.data_size as int, bs);
        assert(all <= 0x40_0000_0000_0001) by (nonlinear_arith)
            requires
                all * bs < node.data_size + bs,
                bs >= 1024,
                node.data_size <= u64::MAX,
        ;
    }
    if !shared || full {
        return Ok((all, full));
    }
    let (n, now_full) = match look_through(source, node, block, seen, start) {
        Ok(x) => x,
        Err(e) => {
            return Err(e);
        },
    };
    if now_full {
        Ok((n + all, true))
    } else {
        Ok((n, false))
    }
}

/// Estimates the blocks that the content takes.
fn estimate_blocks<B: BlockSource>(
    source: &mut B,
    list: &Vec<&Node>,
    block: usize,
    shared: bool,
) -> (r: Result<u64, Error>)
    requires
        old(source).wf(),
        1024 <= block <= 65536,
        block % 4 == 0,
        all_names_fit(ref_views(list@)),
    ensures
        final(source).wf(),
        final(source).volume() == old(source).volume(),
        final(source).unreliable() == old(source).unreliable(),
        match r {
            Ok(n) => match estimated(
                old(source).volume(),
                ref_views(list@),
                block as int,
                shared,
                list@.len() as int,
            ) {
                Ok(e) => n == least(e.blocks, u64::MAX as int) && e.blocks >= 0,
                Err(_) => false,
            },
            Err(x) => estimated(
                old(source).volume(),
                ref_views(list@),
                block as int,
                shared,
                list@.len() as int,
            ) == Err::<Estimate, Fault>(x@) || (x is Io && old(source).unreliable()),
        },
{
    let ghost s = ref_views(list@);
    let ghost v = source.volume();
    let ghost bs = block as int;
    let mut seen: HashSet<u64> = HashSet::new();
    let mut full = false;
    let mut sum: u64 = 0;
    let ghost mut exact: int = 0;
    let mut i: usize = 0;
    while i < list.len()
        invariant
            source.wf(),
            v == source.volume(),
            v == old(source).volume(),
            source.unreliable() == old(source).unreliable(),
            bs == block,
            1024 <= block <= 65536,
            block % 4 == 0,
            s == ref_views(list@),
            all_names_fit(s),
            i <= list@.len() == s.len(),
            exact >= 0,
            sum == least(exact, u64::MAX as int),
            estimated(v, s, bs, shared, i as int) == Ok::<Estimate, Fault>(
                (Estimate { blocks: exact, seen: seen@, full }),
            ),
        decreases list.len() - i,
    {
        let node = list[i];
        assert(s[i as int] == node@);
        assert(names_fit(s[i as int]));
        match estimate_node(source, node, block, shared, &mut seen, full, Ghost(exact)) {
            Ok((n, now_full)) => {
                sum = sum.saturating_add(n);
                full = now_full;
                proof {
                    exact = exact + n;
                }
            },
            Err(e) => {
                proof {
                    if estimated(v, s, bs, shared, i + 1) is Err {
                        estimate_fails_early(v, s, bs, shared, i + 1, s.len() as int);
                    }
                }
                return Err(e);
            },
        }
        i += 1;
    }
    Ok(sum)
}

// ---------------------------------------------------------------------
// Groups
// ---------------------------------------------------------------------
/// What an image has to hold: blocks of content, nodes, and blocks that are
/// to stay free.
pub struct Demand {
    pub data: int,
    pub nodes: int,
    pub spare: int,
}

/// The blocks in front of the data of a group, in an image of that many
/// groups.
pub open spec fn meta_room(p: Superblock, groups: int) -> int {
    1 + ceil_div(groups * 32, p.block_size as int) + 2 + ceil_div(
        p.inodes_per_group * p.inode_size,
        p.block_size as int,
    )
}

/// The blocks that are used in an image of that many groups: a leaf of an
/// extent tree is set aside for each node.
pub open spec fn blocks_needed(p: Superblock, d: Demand, groups: int) -> int {
    d.data + d.nodes + groups * meta_room(p, groups)
}

/// The groups that an image needs where its metadata is that of `groups`.
pub open spec fn groups_wanted(p: Superblock, d: Demand, groups: int) -> int {
    greatest(
        greatest(
            ceil_div(blocks_needed(p, d, groups) + d.spare, p.blocks_per_group as int),
            ceil_div(d.nodes + 16, p.inodes_per_group as int),
        ),
        1,
    )
}

/// The groups, from below: more of them as long as more are needed.
pub open spec fn settled(p: Superblock, d: Demand, groups: int, rounds: int) -> int
    decreases rounds,
{
    if rounds <= 0 || groups_wanted(p, d, groups) <= groups {
        groups
    } else {
        settled(p, d, groups_wanted(p, d, groups), rounds - 1)
    }
}

/// The groups with a margin: a quarter of a group, or what is to stay free.
pub open spec fn with_margin(p: Superblock, d: Demand, groups: int, rounds: int) -> int
    decreases rounds,
{
    let left = greatest(groups * p.blocks_per_group - blocks_needed(p, d, groups), 0);
    if rounds <= 0 || left >= greatest(p.blocks_per_group as int / 4, d.spare) {
        groups
    } else {
        with_margin(p, d, groups + 1, rounds - 1)
    }
}

/// The blocks of an image.
pub open spec fn planned_blocks(p: Superblock, d: Demand) -> int {
    with_margin(p, d, settled(p, d, 1, 32), 1024) * p.blocks_per_group
}

/// Groups only grow, and have room for every inode and for the content.
proof fn settled_grows(p: Superblock, d: Demand, groups: int, rounds: int)
    requires
        plannable(p),
        1 <= groups,
        0 <= d.data,
        0 <= d.nodes,
        0 <= d.spare,
    ensures
        settled(p, d, groups, rounds) >= groups,
        rounds > 0 ==> {
            let g = settled(p, d, groups, rounds);
            &&& g * p.inodes_per_group >= d.nodes + 16
            &&& g * p.blocks_per_group >= d.data
            &&& g * p.blocks_per_group >= d.nodes
            &&& g * p.blocks_per_group >= d.spare
        },
    decreases rounds,
{
    let w = groups_wanted(p, d, groups);
    let bpg = p.blocks_per_group as int;
    let ipg = p.inodes_per_group as int;
    meta_is_positive(p, groups);
    let need = blocks_needed(p, d, groups);
    assert(groups * meta_room(p, groups) >= 0) by (nonlinear_arith)
        requires
            groups >= 1,
            meta_room(p, groups) >= 0,
    ;
    ceil_div_covers(need + d.spare, bpg);
    ceil_div_covers(d.nodes + 16, ipg);
    assert(w * bpg >= need + d.spare) by (nonlinear_arith)
        requires
            w >= ceil_div(need + d.spare, bpg),
            ceil_div(need + d.spare, bpg) * bpg >= need + d.spare,
            bpg > 0,
    ;
    assert(w * ipg >= d.nodes + 16) by (nonlinear_arith)
        requires
            w >= ceil_div(d.nodes + 16, ipg),
            ceil_div(d.nodes + 16, ipg) * ipg >= d.nodes + 16,
            ipg > 0,
    ;
    if rounds > 0 && w > groups {
        settled_grows(p, d, w, rounds - 1);
        let g = settled(p, d, w, rounds - 1);
        assert(g * bpg >= w * bpg && g * ipg >= w * ipg) by (nonlinear_arith)
            requires
                g >= w,
                bpg > 0,
                ipg > 0,
        ;
    } else if rounds > 0 {
        assert(groups * bpg >= w * bpg && groups * ipg >= w * ipg) by (nonlinear_arith)
            requires
                groups >= w,
                bpg > 0,
                ipg > 0,
        ;
    }
}

proof fn meta_is_positive(p: Superblock, groups: int)
    requires
        plannable(p),
        1 <= groups,
    ensures
        3 <= meta_room(p, groups),
        groups <= u32::MAX ==> meta_room(p, groups) <= 0x1000_0000,
{
    let block = p.block_size as int;
    ceil_div_covers(groups * 32, block);
    let bytes = p.inodes_per_group * p.inode_size;
    assert(0 <= bytes <= 0x8_0000 * 0x1_0000) by (nonlinear_arith)
        requires
            bytes == p.inodes_per_group * p.inode_size,
            0 <= p.inodes_per_group <= 0x8_0000,
            0 <= p.inode_size <= 0x1_0000,
    ;
    ceil_div_covers(bytes, block);
    let a = ceil_div(groups * 32, block);
    let b = ceil_div(bytes, block);
    if groups <= u32::MAX {
        assert(a <= 0x800_0000 + 1) by (nonlinear_arith)
            requires
                a * block < groups * 32 + block,
                groups <= 0xffff_ffff,
                block >= 1024,
        ;
        assert(b <= 0x200_0000 + 1) by (nonlinear_arith)
            requires
                b * block < bytes + block,
                bytes <= 0x8_0000 * 0x1_0000,
                block >= 1024,
        ;
    }
}

proof fn margin_grows(p: Superblock, d: Demand, groups: int, rounds: int)
    ensures
        with_margin(p, d, groups, rounds) >= groups,
    decreases rounds,
{
    let left = greatest(groups * p.blocks_per_group - blocks_needed(p, d, groups), 0);
    if !(rounds <= 0 || left >= greatest(p.blocks_per_group as int / 4, d.spare)) {
        margin_grows(p, d, groups + 1, rounds - 1);
    }
}

/// A plan has room for every inode, for the content, and for what is to
/// stay free.
pub proof fn plans_have_room(p: Superblock, d: Demand)
    requires
        plannable(p),
        0 <= d.data,
        0 <= d.nodes,
        0 <= d.spare,
    ensures
        planned_blocks(p, d) >= d.data,
        planned_blocks(p, d) >= d.nodes,
        planned_blocks(p, d) >= d.spare,
        planned_blocks(p, d) >= p.blocks_per_group,
        planned_blocks(p, d) / (p.blocks_per_group as int) * p.inodes_per_group >= d.nodes + 16,
        planned_blocks(p, d) % (p.blocks_per_group as int) == 0,
{
    let bpg = p.blocks_per_group as int;
    let ipg = p.inodes_per_group as int;
    let a = settled(p, d, 1, 32);
    settled_grows(p, d, 1, 32);
    margin_grows(p, d, a, 1024);
    let g = with_margin(p, d, a, 1024);
    assert(g * bpg >= a * bpg && g * ipg >= a * ipg && g * bpg >= bpg) by (nonlinear_arith)
        requires
            g >= a,
            a >= 1,
            bpg > 0,
            ipg > 0,
    ;
    vstd::arithmetic::div_mod::lemma_div_multiples_vanish(g, bpg);
    vstd::arithmetic::div_mod::lemma_mod_multiples_basic(g, bpg);
    assert(bpg * g == g * bpg) by (nonlinear_arith);
}

proof fn margin_is_left(p: Superblock, d: Demand, groups: int, rounds: int)
    requires
        0 <= rounds,
        0 <= d.spare,
        plannable(p),
    ensures
        ({
            let g = with_margin(p, d, groups, rounds);
            ||| g * p.blocks_per_group - blocks_needed(p, d, g) >= greatest(
                p.blocks_per_group as int / 4,
                d.spare,
            )
            ||| greatest(p.blocks_per_group as int / 4, d.spare) == 0
            ||| g == groups + rounds
        }),
    decreases rounds,
{
    let left = greatest(groups * p.blocks_per_group - blocks_needed(p, d, groups), 0);
    if !(rounds <= 0 || left >= greatest(p.blocks_per_group as int / 4, d.spare)) {
        margin_is_left(p, d, groups + 1, rounds - 1);
    }
}

/// A plan leaves what is to stay free, and a quarter of a group at least: what
/// it sets aside for content, nodes and metadata does not reach into it. The
/// search for room ends after a thousand groups.
pub proof fn plans_leave_the_reserve(p: Superblock, d: Demand)
    requires
        plannable(p),
        0 <= d.data,
        0 <= d.nodes,
        0 <= d.spare,
        4 <= p.blocks_per_group,
    ensures
        ({
            let g = planned_blocks(p, d) / (p.blocks_per_group as int);
            ||| planned_blocks(p, d) - blocks_needed(p, d, g) >= greatest(
                p.blocks_per_group as int / 4,
                d.spare,
            )
            ||| g > 1024
        }),
{
    let bpg = p.blocks_per_group as int;
    let a = settled(p, d, 1, 32);
    settled_grows(p, d, 1, 32);
    margin_is_left(p, d, a, 1024);
    let g = with_margin(p, d, a, 1024);
    vstd::arithmetic::div_mod::lemma_div_multiples_vanish(g, bpg);
    assert(bpg * g == g * bpg) by (nonlinear_arith);
}

/// So many groups are enough: they hold all that is wanted, and the margin is
/// left.
pub open spec fn are_enough(p: Superblock, d: Demand, groups: int) -> bool {
    &&& 1 <= groups
    &&& groups_wanted(p, d, groups) <= groups
    &&& groups * p.blocks_per_group - blocks_needed(p, d, groups) >= greatest(
        p.blocks_per_group as int / 4,
        d.spare,
    )
}

/// More groups want no fewer groups.
proof fn wants_grow(p: Superblock, d: Demand, a: int, b: int)
    requires
        plannable(p),
        0 <= d.data,
        0 <= d.nodes,
        0 <= d.spare,
        1 <= a <= b,
    ensures
        groups_wanted(p, d, a) <= groups_wanted(p, d, b),
{
    let block = p.block_size as int;
    let bpg = p.blocks_per_group as int;
    meta_is_positive(p, a);
    ceil_div_grows(a * 32, b * 32, block);
    let x = meta_room(p, a);
    let y = meta_room(p, b);
    assert(a * x <= b * y) by (nonlinear_arith)
        requires
            1 <= a <= b,
            0 <= x <= y,
    ;
    assert(0 <= a * x) by (nonlinear_arith)
        requires
            1 <= a,
            0 <= x,
    ;
    ceil_div_grows(blocks_needed(p, d, a) + d.spare, blocks_needed(p, d, b) + d.spare, bpg);
}

proof fn ceil_div_grows(a: int, b: int, n: int)
    requires
        0 < n,
        0 <= a <= b,
    ensures
        ceil_div(a, n) <= ceil_div(b, n),
{
    ceil_div_covers(a, n);
    ceil_div_covers(b, n);
    let x = ceil_div(a, n);
    let y = ceil_div(b, n);
    assert(x <= y) by (nonlinear_arith)
        requires
            x * n < a + n,
            b <= y * n,
            a <= b,
            0 < n,
    ;
}

proof fn settled_is_least(p: Superblock, d: Demand, groups: int, rounds: int, g: int)
    requires
        plannable(p),
        0 <= d.data,
        0 <= d.nodes,
        0 <= d.spare,
        1 <= groups <= g,
        groups_wanted(p, d, g) <= g,
    ensures
        groups <= settled(p, d, groups, rounds) <= g,
    decreases rounds,
{
    if !(rounds <= 0 || groups_wanted(p, d, groups) <= groups) {
        wants_grow(p, d, groups, g);
        settled_is_least(p, d, groups_wanted(p, d, groups), rounds - 1, g);
    }
}

proof fn margin_is_least(p: Superblock, d: Demand, groups: int, rounds: int, g: int)
    requires
        1 <= groups <= g,
        are_enough(p, d, g),
    ensures
        with_margin(p, d, groups, rounds) <= g,
    decreases rounds,
{
    let left = greatest(groups * p.blocks_per_group - blocks_needed(p, d, groups), 0);
    if !(rounds <= 0 || left >= greatest(p.blocks_per_group as int / 4, d.spare)) {
        margin_is_least(p, d, groups + 1, rounds - 1, g);
    }
}

/// A plan takes no more groups than are enough: removed content shrinks the
/// image as far as it can.
pub proof fn plans_are_least(p: Superblock, d: Demand, groups: int)
    requires
        plannable(p),
        0 <= d.data,
        0 <= d.nodes,
        0 <= d.spare,
        are_enough(p, d, groups),
    ensures
        planned_blocks(p, d) <= groups * p.blocks_per_group,
{
    settled_is_least(p, d, 1, 32, groups);
    let a = settled(p, d, 1, 32);
    margin_is_least(p, d, a, 1024, groups);
    let g = with_margin(p, d, a, 1024);
    let bpg = p.blocks_per_group as int;
    assert(g * bpg <= groups * bpg) by (nonlinear_arith)
        requires
            g <= groups,
            0 <= bpg,
    ;
}

/// Counts the blocks in front of the data of a group.
fn meta_blocks(p: &Superblock, groups: u64) -> (n: u64)
    requires
        plannable(*p),
        1 <= groups <= u32::MAX,
    ensures
        n == meta_room(*p, groups as int),
        3 <= n <= 0x1000_0000,
{
    proof {
        meta_is_positive(*p, groups as int);
        assert(p.inodes_per_group * p.inode_size <= 0x8_0000 * 0x1_0000) by (nonlinear_arith)
            requires
                0 <= p.inodes_per_group <= 0x8_0000,
                0 <= p.inode_size <= 0x1_0000,
        ;
    }
    3 + div_up(groups * 32, p.block_size) + div_up(
        p.inodes_per_group as u64 * p.inode_size as u64,
        p.block_size,
    )
}

fn count_needed(p: &Superblock, data: u64, nodes: u64, groups: u64, spare: Ghost<int>) -> (n: u64)
    requires
        plannable(*p),
        1 <= groups <= u32::MAX,
        data <= u32::MAX,
        nodes <= u32::MAX,
    ensures
        n == blocks_needed(
            *p,
            (Demand { data: data as int, nodes: nodes as int, spare: spare@ }),
            groups as int,
        ),
        n <= 0x1000_0002_0000_0000,
{
    let meta = meta_blocks(p, groups);
    assert(groups * meta <= 0xffff_ffff * 0x1000_0000) by (nonlinear_arith)
        requires
            0 <= groups <= 0xffff_ffff,
            0 <= meta <= 0x1000_0000,
    ;
    data + nodes + groups * meta
}

/// Plans the number of blocks, where block numbers can count them.
fn plan_groups(p: &Superblock, data: u64, nodes: u64, spare: u64) -> (r: Option<u64>)
    requires
        plannable(*p),
    ensures
        match r {
            Some(n) => n == planned_blocks(
                *p,
                (Demand { data: data as int, nodes: nodes as int, spare: spare as int }),
            ) && n <= u32::MAX,
            None => planned_blocks(
                *p,
                (Demand { data: data as int, nodes: nodes as int, spare: spare as int }),
            ) > u32::MAX,
        },
{
    let ghost d = Demand { data: data as int, nodes: nodes as int, spare: spare as int };
    let bpg = p.blocks_per_group as u64;
    let ipg = p.inodes_per_group as u64;
    proof {
        plans_have_room(*p, d);
        settled_grows(*p, d, 1, 32);
        margin_grows(*p, d, settled(*p, d, 1, 32), 1024);
    }
    if data > u32::MAX as u64 || nodes > u32::MAX as u64 || spare > u32::MAX as u64 {
        return None;
    }
    let mut groups: u64 = 1;
    let mut rounds: u64 = 32;
    let mut more = true;
    while more && rounds > 0
        invariant
            plannable(*p),
            d == (Demand { data: data as int, nodes: nodes as int, spare: spare as int }),
            bpg == p.blocks_per_group,
            ipg == p.inodes_per_group,
            data <= u32::MAX,
            nodes <= u32::MAX,
            spare <= u32::MAX,
            1 <= groups <= u32::MAX,
            rounds <= 32,
            more ==> settled(*p, d, groups as int, rounds as int) == settled(*p, d, 1, 32),
            !more ==> groups == settled(*p, d, 1, 32),
            with_margin(*p, d, settled(*p, d, 1, 32), 1024) >= settled(*p, d, 1, 32),
        decreases rounds, more as int,
    {
        let need = count_needed(p, data, nodes, groups, Ghost(spare as int));
        let by_space = div_up(need + spare, bpg);
        let by_inodes = div_up(nodes + 16, ipg);
        let mut want = if by_space < by_inodes {
            by_inodes
        } else {
            by_space
        };
        if want < 1 {
            want = 1;
        }
        assert(want == groups_wanted(*p, d, groups as int));
        if want <= groups {
            more = false;
        } else {
            if want > u32::MAX as u64 {
                proof {
                    settled_grows(*p, d, want as int, rounds - 1);
                    let g = with_margin(*p, d, settled(*p, d, 1, 32), 1024);
                    assert(g * bpg > u32::MAX) by (nonlinear_arith)
                        requires
                            g > u32::MAX,
                            bpg >= 1,
                    ;
                }
                return None;
            }
            groups = want;
            rounds = rounds - 1;
        }
    }
    assert(groups == settled(*p, d, 1, 32));
    grow_margin(p, data, nodes, spare, groups)
}

fn grow_margin(p: &Superblock, data: u64, nodes: u64, spare: u64, first: u64) -> (r: Option<u64>)
    requires
        plannable(*p),
        data <= u32::MAX,
        nodes <= u32::MAX,
        spare <= u32::MAX,
        1 <= first <= u32::MAX,
    ensures
        match r {
            Some(n) => n == with_margin(
                *p,
                (Demand { data: data as int, nodes: nodes as int, spare: spare as int }),
                first as int,
                1024,
            ) * p.blocks_per_group && n <= u32::MAX,
            None => with_margin(
                *p,
                (Demand { data: data as int, nodes: nodes as int, spare: spare as int }),
                first as int,
                1024,
            ) * p.blocks_per_group > u32::MAX,
        },
{
    let ghost d = Demand { data: data as int, nodes: nodes as int, spare: spare as int };
    let bpg = p.blocks_per_group as u64;
    let margin = if bpg / 4 < spare {
        spare
    } else {
        bpg / 4
    };
    let ghost whole = with_margin(*p, d, first as int, 1024);
    let mut groups = first;
    let mut rounds: u64 = 1024;
    let mut more = true;
    while more && rounds > 0
        invariant
            plannable(*p),
            d == (Demand { data: data as int, nodes: nodes as int, spare: spare as int }),
            bpg == p.blocks_per_group,
            margin == greatest(p.blocks_per_group as int / 4, d.spare),
            data <= u32::MAX,
            nodes <= u32::MAX,
            spare <= u32::MAX,
            1 <= groups <= u32::MAX,
            rounds <= 1024,
            whole == with_margin(*p, d, first as int, 1024),
            more ==> whole == with_margin(*p, d, groups as int, rounds as int),
            !more ==> whole == groups,
        decreases rounds, more as int,
    {
        let need = count_needed(p, data, nodes, groups, Ghost(spare as int));
        assert(groups * bpg <= 0xffff_ffff * 0x8_0000) by (nonlinear_arith)
            requires
                0 <= groups <= 0xffff_ffff,
                0 <= bpg <= 0x8_0000,
        ;
        let total = groups * bpg;
        let left = if total < need {
            0
        } else {
            total - need
        };
        if left >= margin {
            more = false;
        } else {
            if groups == u32::MAX as u64 {
                proof {
                    margin_grows(*p, d, groups + 1, rounds - 1);
                    assert(whole * bpg > u32::MAX) by (nonlinear_arith)
                        requires
                            whole > u32::MAX,
                            bpg >= 1,
                    ;
                }
                return None;
            }
            groups = groups + 1;
            rounds = rounds - 1;
        }
    }
    assert(groups * bpg <= 0xffff_ffff * 0x8_0000) by (nonlinear_arith)
        requires
            0 <= groups <= 0xffff_ffff,
            0 <= bpg <= 0x8_0000,
    ;
    let total = groups * bpg;
    if total > u32::MAX as u64 {
        None
    } else {
        Some(total)
    }
}

// ---------------------------------------------------------------------
// Images
// ---------------------------------------------------------------------
/// The blocks that are to stay free.
pub open spec fn spare_blocks(reserve_mb: u64, block: int) -> int {
    ceil_div(least(reserve_mb * 1048576, u64::MAX as int), block)
}

/// The blocks that an image is planned with.
pub open spec fn planned_total(
    v: Volume,
    list: Seq<NodeView>,
    p: Superblock,
    reserve_mb: u64,
    shared: bool,
) -> Result<int, Fault> {
    match estimated(v, list, p.block_size as int, shared, list.len() as int) {
        Err(x) => Err(x),
        Ok(e) => {
            let total = planned_blocks(
                p,
                Demand {
                    data: e.blocks,
                    nodes: list.len() as int,
                    spare: spare_blocks(reserve_mb, p.block_size as int),
                },
            );
            if total > u32::MAX {
                fail("ext4 image is too large"@)
            } else {
                Ok(total)
            }
        },
    }
}

/// A product, or the largest number where it is larger.
fn times(a: u64, b: u64) -> (n: u64)
    ensures
        n == least(a * b, u64::MAX as int),
{
    match a.checked_mul(b) {
        Some(n) => n,
        None => u64::MAX,
    }
}

/// Plans the number of blocks of an image.
pub fn plan_total_blocks<B: BlockSource>(
    source: &mut B,
    p: &Superblock,
    list: &Vec<&Node>,
    reserve_mb: u64,
    shared: bool,
) -> (r: Result<u64, Error>)
    requires
        old(source).wf(),
        plannable(*p),
        all_names_fit(ref_views(list@)),
    ensures
        final(source).wf(),
        final(source).volume() == old(source).volume(),
        final(source).unreliable() == old(source).unreliable(),
        match r {
            Ok(n) => planned_total(
                old(source).volume(),
                ref_views(list@),
                *p,
                reserve_mb,
                shared,
            ) == Ok::<int, Fault>(n as int) && p.blocks_per_group <= n <= u32::MAX && n
                % p.blocks_per_group as u64 == 0 && (n / p.blocks_per_group as u64)
                * p.inodes_per_group >= list@.len() + 16,
            Err(x) => planned_total(
                old(source).volume(),
                ref_views(list@),
                *p,
                reserve_mb,
                shared,
            ) == Err::<int, Fault>(x@) || (x is Io && old(source).unreliable()),
        },
{
    let ghost s = ref_views(list@);
    let data = estimate_blocks(source, list, p.block_size as usize, shared)?;
    let spare = div_up(times(reserve_mb, 1048576), p.block_size);
    let ghost d = Demand {
        data: estimated(
            source.volume(),
            s,
            p.block_size as int,
            shared,
            s.len() as int,
        )->Ok_0.blocks,
        nodes: s.len() as int,
        spare: spare as int,
    };
    proof {
        ceil_div_covers(least(reserve_mb * 1048576, u64::MAX as int), p.block_size as int);
        plans_have_room(*p, d);
    }
    match plan_groups(p, data, list.len() as u64, spare) {
        Some(n) => {
            proof {
                assert(data == d.data) by {
                    plans_have_room(
                        *p,
                        (Demand { data: data as int, nodes: d.nodes, spare: d.spare }),
                    );
                }
            }
            Ok(n)
        },
        None => Err(Error::invalid("ext4 image is too large")),
    }
}

/// Whether an image was too small.
pub open spec fn out_of_space(message: Seq<char>) -> bool {
    ||| message == "ext4 image has no free data blocks"@
    ||| message == "ext4 compact image has no free data blocks"@
    ||| message == "ext4 compact image has no free metadata blocks"@
}

fn is_out_of_space(message: &str) -> (b: bool)
    ensures
        b == out_of_space(message@),
{
    same(message, "ext4 image has no free data blocks") || same(
        message,
        "ext4 compact image has no free data blocks",
    ) || same(message, "ext4 compact image has no free metadata blocks")
}

/// The most blocks that an image grows to.
pub open spec fn growth_limit(p: Superblock, total: int) -> int {
    least(greatest(p.block_count * 4, total * 2 + 65536), u32::MAX as int)
}

/// The image and its blocks, after as many rounds of growth by a group as it
/// takes.
pub open spec fn grown(
    v: Volume,
    list: Seq<NodeView>,
    p: Superblock,
    total: int,
    shared: bool,
    limit: int,
    last: Seq<char>,
    rounds: int,
) -> Result<(Seq<u8>, int), Fault>
    decreases rounds,
{
    if rounds <= 0 {
        fail("ext4 image cannot be rebuilt even after growth: "@ + last + ""@)
    } else {
        match ext4_image(v, list, p, total, shared) {
            Ok(s) => Ok((s, total)),
            Err(Fault::Invalid(m)) if out_of_space(m) && total < limit => grown(
                v,
                list,
                p,
                total + p.blocks_per_group,
                shared,
                limit,
                m,
                rounds - 1,
            ),
            Err(e) => Err(e),
        }
    }
}

/// More blocks have room for no fewer inodes.
pub proof fn more_blocks_more_groups(list: Seq<NodeView>, p: Superblock, a: int, b: int)
    requires
        plannable(p),
        0 <= a <= b <= u64::MAX,
        well_numbered(list, Geometry::of(p, a)),
    ensures
        well_numbered(list, Geometry::of(p, b)),
{
    let bpg = p.blocks_per_group as int;
    let ipg = p.inodes_per_group as int;
    ceil_div_covers(a, bpg);
    ceil_div_covers(b, bpg);
    let x = ceil_div(a, bpg);
    let y = ceil_div(b, bpg);
    assert(x <= y) by (nonlinear_arith)
        requires
            y * bpg >= b,
            x * bpg < a + bpg,
            a <= b,
            bpg > 0,
    ;
    assert(x * ipg <= y * ipg) by (nonlinear_arith)
        requires
            x <= y,
            ipg > 0,
    ;
}

/// Writes an image, growing it by a group as long as it is too small. The
/// result is the number of blocks.
pub fn build_grown<B: BlockSource, T: ByteStore>(
    source: &mut B,
    p: &Superblock,
    list: &Vec<&Node>,
    first: u64,
    shared: bool,
    store: &mut T,
) -> (r: Result<u64, Error>)
    requires
        old(source).wf(),
        laid_out(*p) is Ok,
        1 <= first,
        all_names_fit(ref_views(list@)),
        well_numbered(ref_views(list@), Geometry::of(*p, first as int)),
    ensures
        final(source).wf(),
        final(source).volume() == old(source).volume(),
        final(source).unreliable() == old(source).unreliable(),
        final(store).failing() == old(store).failing(),
        match r {
            Ok(n) => grown(
                old(source).volume(),
                ref_views(list@),
                *p,
                first as int,
                shared,
                growth_limit(*p, first as int),
                "out of space"@,
                16,
            ) == Ok::<(Seq<u8>, int), Fault>((final(store).content(), n as int)),
            Err(e) => grown(
                old(source).volume(),
                ref_views(list@),
                *p,
                first as int,
                shared,
                growth_limit(*p, first as int),
                "out of space"@,
                16,
            ) == Err::<(Seq<u8>, int), Fault>(e@) || (e is Io && (old(source).unreliable() || old(
                store,
            ).failing())),
        },
{
    let ghost s = ref_views(list@);
    let ghost v = source.volume();
    let by_input = times(p.block_count, 4);
    let by_plan = times(first, 2).saturating_add(65536);
    let mut limit = if by_input < by_plan {
        by_plan
    } else {
        by_input
    };
    if limit > u32::MAX as u64 {
        limit = u32::MAX as u64;
    }
    assert(limit == growth_limit(*p, first as int));
    let bpg = p.blocks_per_group as u64;
    let ghost whole = grown(
        v,
        s,
        *p,
        first as int,
        shared,
        limit as int,
        "out of space"@,
        16,
    );
    let mut total = first;
    let mut last = "out of space".to_owned();
    let mut rounds: u64 = 16;
    while rounds > 0
        invariant
            source.wf(),
            v == source.volume(),
            v == old(source).volume(),
            source.unreliable() == old(source).unreliable(),
            store.failing() == old(store).failing(),
            s == ref_views(list@),
            laid_out(*p) is Ok,
            bpg == p.blocks_per_group,
            limit == growth_limit(*p, first as int),
            limit <= u32::MAX,
            1 <= total,
            all_names_fit(s),
            well_numbered(s, Geometry::of(*p, total as int)),
            rounds <= 16,
            whole == grown(
                v,
                s,
                *p,
                first as int,
                shared,
                limit as int,
                "out of space"@,
                16,
            ),
            whole == grown(
                v,
                s,
                *p,
                total as int,
                shared,
                limit as int,
                last@,
                rounds as int,
            ),
        decreases rounds,
    {
        match rebuild_groups_to(source, p, list, total, shared, store) {
            Ok(_) => {
                return Ok(total);
            },
            Err(e) => {
                match e {
                    Error::Io => {
                        return Err(Error::Io);
                    },
                    Error::Invalid(m) => {
                        if is_out_of_space(m.as_str()) && total < limit {
                            proof {
                                more_blocks_more_groups(s, *p, total as int, total + bpg);
                            }
                            last = m;
                            total = total + bpg;
                        } else {
                            return Err(Error::Invalid(m));
                        }
                    },
                }
            },
        }
        rounds = rounds - 1;
    }
    Err(
        Error::Invalid(
            with_text("ext4 image cannot be rebuilt even after growth: ", last.as_str(), ""),
        ),
    )
}

/// The blocks that an image starts with: no fewer than it had, where its
/// size is to be kept.
pub open spec fn first_total(p: Superblock, planned: int, keep: bool) -> int {
    if keep {
        greatest(planned, p.block_count as int)
    } else {
        planned
    }
}

/// A fresh ext4 image of a tree.
pub open spec fn fresh_ext4(
    v: Volume,
    root: NodeView,
    p: Superblock,
    shared: bool,
    reserve_mb: u64,
    keep: bool,
    compact: bool,
) -> Result<Seq<u8>, Fault> {
    match laid_out(p) {
        Err(e) => Err(e),
        Ok(_) => match inode_tree(root) {
            Err(e) => Err(e),
            Ok(tree) => {
                let list = preorder(tree);
                if !all_names_fit(list) {
                    fail("ext4 file name is too long"@)
                } else {
                    match planned_total(v, list, p, reserve_mb, shared && compact) {
                        Err(e) => Err(e),
                        Ok(planned) => {
                            let total = first_total(p, planned, keep && !compact);
                            match grown(
                                v,
                                list,
                                p,
                                total,
                                shared,
                                growth_limit(p, total),
                                "out of space"@,
                                16,
                            ) {
                                Err(e) => Err(e),
                                Ok((s, _)) => Ok(s),
                            }
                        },
                    }
                }
            },
        },
    }
}

/// Writes a tree as a fresh ext4 image.
pub fn rebuild_generic<B: BlockSource, T: ByteStore>(
    source: &mut B,
    p: &Superblock,
    root: &mut Node,
    shared: bool,
    reserve_mb: u64,
    keep: bool,
    compact: bool,
    store: &mut T,
) -> (r: Result<(), Error>)
    requires
        old(source).wf(),
    ensures
        final(store).failing() == old(store).failing(),
        stored(
            old(source).unreliable() || old(store).failing(),
            r,
            final(store).content(),
            fresh_ext4(
                old(source).volume(),
                old(root)@,
                *p,
                shared,
                reserve_mb,
                keep,
                compact,
            ),
        ),
{
    check_layout(p)?;
    number_inodes(root)?;
    proof {
        inodes_are_numbered(old(root)@);
    }
    let mut list: Vec<&Node> = Vec::new();
    nodes(root, &mut list);
    assert(ref_views(list@) =~= preorder(root@));
    check_names(&list)?;
    let planned = plan_total_blocks(source, p, &list, reserve_mb, shared && compact)?;
    let total = if keep && !compact && p.block_count > planned {
        p.block_count
    } else {
        planned
    };
    proof {
        let s = ref_views(list@);
        let bpg = p.blocks_per_group as int;
        let x = Geometry::of(*p, planned as int);
        let g = planned as int / bpg;
        vstd::arithmetic::div_mod::lemma_fundamental_div_mod(planned as int, bpg);
        ceil_div_covers(planned as int, bpg);
        let c = ceil_div(planned as int, bpg);
        assert(c == g) by (nonlinear_arith)
            requires
                bpg * g == planned,
                c * bpg >= planned,
                c * bpg < planned + bpg,
                bpg > 0,
        ;
        assert(well_numbered(s, x));
        more_blocks_more_groups(s, *p, planned as int, total as int);
    }
    build_grown(source, p, &list, total, shared, store)?;
    Ok(())
}

} // verus!
