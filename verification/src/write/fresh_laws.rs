//! What a fresh EROFS image holds once it is written: no part of it
//! overwrites another.
use super::fresh::{
    dir_room, dir_writes, dirs_fit, file_room, fresh_plan, fresh_writes, inode_image, inode_place,
    inode_writes, is_plain_file, node_area, node_size, placed_tree, places_fit, raw_block_of,
    rooms_grow, sizes_fit, Fresh,
};
use super::layout::{
    clear_of_super, directory_content, numbered, numbering_keeps_slots_apart, spaced, SUPER_END,
    SUPER_START,
};
use super::node::{preorder, NodeView};
use super::patch::PatchView;
use super::store::{laid, laid_all, laid_all_joins, laid_all_one};
use crate::math::{ceil_div, ceil_div_covers};
use vstd::prelude::*;

verus! {

// ---------------------------------------------------------------------
// Writes that stay apart
// ---------------------------------------------------------------------
/// The bytes `x` stand in `d` from `at` on.
pub open spec fn holds(d: Seq<u8>, at: int, x: Seq<u8>) -> bool {
    &&& 0 <= at
    &&& at + x.len() <= d.len()
    &&& d.subrange(at, at + x.len()) == x
}

/// No write touches the `n` bytes from `at` on.
pub open spec fn apart(w: Seq<PatchView>, at: int, n: int) -> bool {
    forall|k: int|
        0 <= k < w.len() ==> (#[trigger] w[k]).at >= 0 && (w[k].at + w[k].data.len() <= at || at + n
            <= w[k].at)
}

/// What was just written is there.
pub proof fn laid_is_there(s: Seq<u8>, at: int, x: Seq<u8>)
    requires
        0 <= at,
        x.len() > 0,
    ensures
        holds(laid(s, at, x), at, x),
        laid(s, at, x).len() >= s.len(),
{
    assert(laid(s, at, x).subrange(at, at + x.len()) =~= x);
}

/// A write somewhere else changes nothing here.
pub proof fn laid_stays_apart(s: Seq<u8>, at: int, x: Seq<u8>, p: int, y: Seq<u8>)
    requires
        holds(s, p, y),
        0 <= at,
        at + x.len() <= p || p + y.len() <= at,
    ensures
        holds(laid(s, at, x), p, y),
        laid(s, at, x).len() >= s.len(),
{
    let t = laid(s, at, x);
    assert forall|i: int| 0 <= i < y.len() implies t[p + i] == y[i] by {
        assert(s.subrange(p, p + y.len())[i] == y[i]);
    }
    assert(t.subrange(p, p + y.len()) =~= y);
}

/// Writes somewhere else change nothing here.
pub proof fn writes_stay_apart(s: Seq<u8>, w: Seq<PatchView>, p: int, y: Seq<u8>)
    requires
        holds(s, p, y),
        apart(w, p, y.len() as int),
    ensures
        holds(laid_all(s, w), p, y),
        laid_all(s, w).len() >= s.len(),
    decreases w.len(),
{
    if w.len() > 0 {
        assert forall|k: int| 0 <= k < w.drop_last().len() implies (#[trigger] w.drop_last()[k]).at
            >= 0 && (w.drop_last()[k].at + w.drop_last()[k].data.len() <= p || p + y.len()
            <= w.drop_last()[k].at) by {
            assert(w.drop_last()[k] == w[k]);
        }
        writes_stay_apart(s, w.drop_last(), p, y);
        assert(w.last() == w[w.len() - 1]);
        laid_stays_apart(laid_all(s, w.drop_last()), w.last().at, w.last().data, p, y);
    }
}

/// A write is there after those behind it, where they are somewhere else.
pub proof fn write_survives(s: Seq<u8>, w: Seq<PatchView>, k: int)
    requires
        0 <= k < w.len(),
        w[k].at >= 0,
        w[k].data.len() > 0,
        apart(w.skip(k + 1), w[k].at, w[k].data.len() as int),
    ensures
        holds(laid_all(s, w), w[k].at, w[k].data),
{
    let front = w.take(k + 1);
    assert(front.drop_last() =~= w.take(k));
    assert(front.last() == w[k]);
    laid_is_there(laid_all(s, w.take(k)), w[k].at, w[k].data);
    writes_stay_apart(laid_all(s, front), w.skip(k + 1), w[k].at, w[k].data);
    laid_all_joins(s, front, w.skip(k + 1));
    assert(front + w.skip(k + 1) =~= w);
}

/// Writes never shorten.
pub proof fn writes_never_shorten(s: Seq<u8>, w: Seq<PatchView>)
    ensures
        laid_all(s, w).len() >= s.len(),
    decreases w.len(),
{
    if w.len() > 0 {
        writes_never_shorten(s, w.drop_last());
    }
}

// ---------------------------------------------------------------------
// Where the inodes are
// ---------------------------------------------------------------------
proof fn slots_hold_the_inode(n: NodeView)
    ensures
        n.slots() * 32 >= n.body() + if n.labelled() {
            16int
        } else {
            0
        },
{
    let area: int = if n.labelled() {
        16
    } else {
        0
    };
    let index = ceil_div(n.erofs_compact_clusters as int, 2) * 8;
    ceil_div_covers(n.erofs_compact_clusters as int, 2);
    ceil_div_covers(n.body() + area, 32);
    ceil_div_covers(n.body() + area + 8 + index, 32);
}

proof fn spaced_span(s: Seq<NodeView>, from: int, to: int, base: int)
    requires
        spaced(s, from, to, base),
    ensures
        from <= to,
    decreases s.len(),
{
    if s.len() > 0 {
        slots_hold_the_inode(s.last());
        spaced_span(s.drop_last(), from, s.last().nid as int, base);
    }
}

proof fn slot_of(s: Seq<NodeView>, from: int, to: int, base: int, k: int)
    requires
        spaced(s, from, to, base),
        0 <= k < s.len(),
    ensures
        from <= s[k].nid,
        s[k].nid + s[k].slots() <= to,
        clear_of_super(s[k].nid as int, base, s[k].slots()),
    decreases s.len(),
{
    spaced_span(s.drop_last(), from, s.last().nid as int, base);
    slots_hold_the_inode(s.last());
    if k < s.len() - 1 {
        slot_of(s.drop_last(), from, s.last().nid as int, base, k);
        assert(s.drop_last()[k] == s[k]);
    }
}

/// Every node takes at least one number.
pub proof fn slots_count(s: Seq<NodeView>, from: int, to: int, base: int)
    requires
        spaced(s, from, to, base),
    ensures
        from + s.len() <= to,
        s.len() > 0 ==> from + s.len() - 1 <= s.last().nid,
    decreases s.len(),
{
    if s.len() > 0 {
        slots_hold_the_inode(s.last());
        slots_count(s.drop_last(), from, s.last().nid as int, base);
    }
}

/// The slots of two nodes lie one behind the other.
pub proof fn slots_apart(s: Seq<NodeView>, from: int, to: int, base: int, i: int, j: int)
    requires
        spaced(s, from, to, base),
        0 <= i < j < s.len(),
    ensures
        s[i].nid + s[i].slots() <= s[j].nid,
    decreases s.len(),
{
    if j < s.len() - 1 {
        slots_apart(s.drop_last(), from, s.last().nid as int, base, i, j);
        assert(s.drop_last()[i] == s[i]);
        assert(s.drop_last()[j] == s[j]);
    } else {
        slot_of(s.drop_last(), from, s.last().nid as int, base, i);
        assert(s.drop_last()[i] == s[i]);
    }
}

/// A plan whose inodes have numbers up to `next`: everything has its place.
pub open spec fn settled_plan(f: Fresh, next: int) -> bool {
    &&& 512 <= f.block_size <= 65536
    &&& 0 <= f.meta_block
    &&& spaced(f.list, 1, next, f.meta_block * f.block_size)
    &&& f.list.len() > 0
    &&& f.list[0].is_dir()
    &&& f.table_block == f.meta_block + ceil_div(next * 32, f.block_size)
    &&& f.dir_block == f.table_block + ceil_div(f.table.len() as int, f.block_size)
    &&& f.file_block == f.dir_block + dir_room(f.list, f.block_size)
    &&& f.end_block == f.file_block + file_room(f.list, f.block_size)
    &&& f.end_block <= u32::MAX
    &&& dirs_fit(f.list, f.block_size)
    &&& sizes_fit(f.list, f.block_size)
    &&& places_fit(f)
}

/// A plan has everything at its place.
pub proof fn plans_are_settled(root: NodeView, block_size: int, meta_block: int)
    requires
        512 <= block_size <= 65536,
        0 <= meta_block,
        root.is_dir(),
        fresh_plan(root, block_size, meta_block) is Ok,
    ensures
        ({
            let (tree, f) = fresh_plan(root, block_size, meta_block)->Ok_0;
            &&& exists|next: int| #[trigger]
                settled_plan(f, next) && f == placed_tree(tree, next, block_size, meta_block)
            &&& f.block_size == block_size
            &&& f.meta_block == meta_block
            &&& f.list == preorder(tree)
            &&& f.list[0] == tree
            &&& tree.is_dir()
        }),
{
    let base = meta_block * block_size;
    assert(0 <= base) by (nonlinear_arith)
        requires
            0 <= meta_block,
            512 <= block_size,
            base == meta_block * block_size,
    ;
    numbering_keeps_slots_apart(root, 1, 1, base);
    let (tree, next) = numbered(root, 1, 1, base)->Some_0;
    let f = placed_tree(tree, next, block_size, meta_block);
    assert(f.list[0] == tree);
    assert(settled_plan(f, next));
}

/// Where an inode with its extended attributes lies: in front of the table,
/// clear of the superblock.
pub proof fn inode_bounds(f: Fresh, next: int, k: int)
    requires
        settled_plan(f, next),
        0 <= k < f.list.len(),
    ensures
        inode_image(f, k).len() == f.list[k].body() + node_area(f, f.list[k]).len(),
        node_area(f, f.list[k]).len() == if f.list[k].labelled() {
            16int
        } else {
            0
        },
        f.list[k].nid >= 1,
        inode_place(f, f.list[k].nid) >= 32,
        inode_place(f, f.list[k].nid) + f.list[k].slots() * 32 <= f.table_block * f.block_size,
        inode_image(f, k).len() <= f.list[k].slots() * 32,
        inode_place(f, f.list[k].nid) >= SUPER_END || inode_place(f, f.list[k].nid)
            + f.list[k].slots() * 32 <= SUPER_START,
{
    let n = f.list[k];
    let base = f.meta_block * f.block_size;
    slot_of(f.list, 1, next, base, k);
    slots_hold_the_inode(n);
    super::fresh::area_length(f, n);
    super::fresh::image_length(f, k);
    if n.labelled() {
        let i = super::fresh::context_index(f.contexts, n.context->Some_0, 0);
        let ids = seq![(crate::fs::erofs::xattr::table_of(f.contexts, i).len() / 4) as u32];
        assert(ids.drop_last() =~= Seq::empty());
        assert(crate::fs::erofs::xattr::words(ids.drop_last()).len() == 0);
        assert(crate::fs::erofs::xattr::words(ids).len() == 4);
    }
    let blocks = ceil_div(next * 32, f.block_size);
    ceil_div_covers(next * 32, f.block_size);
    assert(f.table_block * f.block_size == base + blocks * f.block_size) by (nonlinear_arith)
        requires
            f.table_block == f.meta_block + blocks,
            base == f.meta_block * f.block_size,
    ;
    assert(base >= 0) by (nonlinear_arith)
        requires
            base == f.meta_block * f.block_size,
            f.meta_block >= 0,
            f.block_size >= 512,
    ;
}

/// Where the content of a node lies: a directory between the table and the
/// files, a file behind the directories.
pub proof fn content_bounds(f: Fresh, next: int, k: int)
    requires
        settled_plan(f, next),
        0 <= k < f.list.len(),
    ensures
        f.list[k].is_dir() ==> {
            &&& f.dir_block <= raw_block_of(f, k)
            &&& f.dir_block * f.block_size <= raw_block_of(f, k) * f.block_size
            &&& raw_block_of(f, k) * f.block_size + node_size(f.list[k], f.block_size)
                <= f.file_block * f.block_size
        },
        is_plain_file(f.list[k]) && f.list[k].data_size > 0 ==> {
            &&& f.file_block <= raw_block_of(f, k)
            &&& f.file_block * f.block_size <= raw_block_of(f, k) * f.block_size
            &&& raw_block_of(f, k) * f.block_size + node_size(f.list[k], f.block_size)
                <= f.end_block * f.block_size
        },
{
    let bs = f.block_size;
    let t = f.list.take(k + 1);
    assert(t.drop_last() =~= f.list.take(k));
    assert(t.last() == f.list[k]);
    rooms_grow(f.list, bs, k + 1);
    rooms_grow(f.list, bs, k);
    let size = node_size(f.list[k], bs);
    let blocks = ceil_div(size, bs);
    ceil_div_covers(size, bs);
    let raw = raw_block_of(f, k);
    if f.list[k].is_dir() {
        reaches(raw, blocks, size, bs, f.dir_block, f.file_block);
    } else if is_plain_file(f.list[k]) && f.list[k].data_size > 0 {
        reaches(raw, blocks, size, bs, f.file_block, f.end_block);
    }
}

proof fn reaches(raw: int, blocks: int, size: int, bs: int, low: int, high: int)
    requires
        bs > 0,
        low <= raw,
        raw + blocks <= high,
        size <= blocks * bs,
    ensures
        low * bs <= raw * bs,
        raw * bs + size <= high * bs,
{
    assert(low * bs <= raw * bs) by (nonlinear_arith)
        requires
            bs > 0,
            low <= raw,
    ;
    assert(raw * bs + blocks * bs <= high * bs) by (nonlinear_arith)
        requires
            bs > 0,
            raw + blocks <= high,
    ;
}

/// The contents of two nodes of a kind lie one behind the other.
pub proof fn contents_apart(f: Fresh, next: int, i: int, j: int)
    requires
        settled_plan(f, next),
        0 <= i < j < f.list.len(),
        f.list[i].is_dir() && f.list[j].is_dir() || (is_plain_file(f.list[i]) && is_plain_file(
            f.list[j],
        ) && f.list[i].data_size > 0 && f.list[j].data_size > 0),
    ensures
        raw_block_of(f, i) * f.block_size + node_size(f.list[i], f.block_size) <= raw_block_of(f, j)
            * f.block_size,
{
    let bs = f.block_size;
    let t = f.list.take(i + 1);
    assert(t.drop_last() =~= f.list.take(i));
    assert(t.last() == f.list[i]);
    rooms_grow(f.list.take(j), bs, i + 1);
    assert(f.list.take(j).take(i + 1) =~= t);
    let size = node_size(f.list[i], bs);
    let blocks = ceil_div(size, bs);
    ceil_div_covers(size, bs);
    reaches(raw_block_of(f, i), blocks, size, bs, raw_block_of(f, i), raw_block_of(f, j));
}

// ---------------------------------------------------------------------
// The metadata arrives
// ---------------------------------------------------------------------
/// The image `d` holds the metadata of the plan: the table of contexts, every
/// inode and every directory.
pub open spec fn carries(d: Seq<u8>, f: Fresh) -> bool {
    &&& f.table.len() > 0 ==> holds(d, f.table_block * f.block_size, f.table)
    &&& forall|k: int|
        0 <= k < f.list.len() ==> holds(
            d,
            inode_place(f, (#[trigger] f.list[k]).nid),
            inode_image(f, k),
        )
    &&& forall|k: int|
        0 <= k < f.list.len() && (#[trigger] f.list[k]).is_dir() ==> holds(
            d,
            raw_block_of(f, k) * f.block_size,
            directory_content(f.list[k], f.block_size),
        )
}

proof fn inode_writes_apart(f: Fresh, next: int, n: int, p: int, len: int)
    requires
        settled_plan(f, next),
        0 <= n <= f.list.len(),
        f.table_block * f.block_size <= p || (p == SUPER_START && len == SUPER_END - SUPER_START),
    ensures
        apart(inode_writes(f, n), p, len),
    decreases n,
{
    if n > 0 {
        inode_writes_apart(f, next, n - 1, p, len);
        inode_bounds(f, next, n - 1);
    }
}

proof fn dir_writes_apart(f: Fresh, next: int, n: int, p: int, len: int)
    requires
        settled_plan(f, next),
        0 <= n <= f.list.len(),
        0 <= f.dir_block,
        p + len <= f.dir_block * f.block_size,
    ensures
        apart(dir_writes(f, n), p, len),
    decreases n,
{
    if n > 0 {
        dir_writes_apart(f, next, n - 1, p, len);
        content_bounds(f, next, n - 1);
        if f.list[n - 1].is_dir() {
            assert(0 <= f.dir_block * f.block_size) by (nonlinear_arith)
                requires
                    0 <= f.dir_block,
                    512 <= f.block_size,
            ;
        }
    }
}

proof fn inodes_arrive(s: Seq<u8>, f: Fresh, next: int, n: int, k: int)
    requires
        settled_plan(f, next),
        0 <= k < n <= f.list.len(),
    ensures
        holds(
            laid_all(s, inode_writes(f, n)),
            inode_place(f, f.list[k].nid),
            inode_image(f, k),
        ),
    decreases n,
{
    let w = inode_writes(f, n);
    assert(w.drop_last() =~= inode_writes(f, n - 1));
    let t = laid_all(s, inode_writes(f, n - 1));
    inode_bounds(f, next, n - 1);
    inode_bounds(f, next, k);
    if k == n - 1 {
        laid_is_there(t, w.last().at, w.last().data);
    } else {
        inodes_arrive(s, f, next, n - 1, k);
        slots_apart(f.list, 1, next, f.meta_block * f.block_size, k, n - 1);
        laid_stays_apart(
            t,
            w.last().at,
            w.last().data,
            inode_place(f, f.list[k].nid),
            inode_image(f, k),
        );
    }
}

proof fn dirs_arrive(s: Seq<u8>, f: Fresh, next: int, n: int, k: int)
    requires
        settled_plan(f, next),
        0 <= f.dir_block,
        0 <= k < n <= f.list.len(),
        f.list[k].is_dir(),
    ensures
        holds(
            laid_all(s, dir_writes(f, n)),
            raw_block_of(f, k) * f.block_size,
            directory_content(f.list[k], f.block_size),
        ),
    decreases n,
{
    assert(0 <= f.dir_block * f.block_size) by (nonlinear_arith)
        requires
            0 <= f.dir_block,
            512 <= f.block_size,
    ;
    content_bounds(f, next, k);
    content_bounds(f, next, n - 1);
    let t = laid_all(s, dir_writes(f, n - 1));
    if f.list[n - 1].is_dir() {
        let w = dir_writes(f, n);
        assert(w.drop_last() =~= dir_writes(f, n - 1));
        if k == n - 1 {
            laid_is_there(t, w.last().at, w.last().data);
        } else {
            dirs_arrive(s, f, next, n - 1, k);
            contents_apart(f, next, k, n - 1);
            laid_stays_apart(
                t,
                w.last().at,
                w.last().data,
                raw_block_of(f, k) * f.block_size,
                directory_content(f.list[k], f.block_size),
            );
        }
    } else {
        dirs_arrive(s, f, next, n - 1, k);
    }
}

/// The blocks of a plan are in order.
pub proof fn blocks_in_order(f: Fresh, next: int)
    requires
        settled_plan(f, next),
    ensures
        next >= 2,
        f.meta_block < f.table_block <= f.dir_block < f.file_block <= f.end_block,
        0 < f.table_block * f.block_size,
        (f.table_block + 1) * f.block_size <= f.end_block * f.block_size,
        f.table_block * f.block_size + f.table.len() <= f.dir_block * f.block_size,
        f.dir_block * f.block_size <= f.file_block * f.block_size <= f.end_block * f.block_size,
        f.block_size >= 2048 || f.meta_block * f.block_size >= 1024 ==> f.table_block * f.block_size
            >= SUPER_END,
{
    let bs = f.block_size;
    let base = f.meta_block * bs;
    slot_of(f.list, 1, next, base, 0);
    slots_hold_the_inode(f.list[0]);
    let inodes = ceil_div(next * 32, bs);
    ceil_div_covers(next * 32, bs);
    assert(inodes >= 1) by (nonlinear_arith)
        requires
            inodes * bs >= next * 32,
            next >= 2,
            bs > 0,
    ;
    let size = f.table.len() as int;
    let table = ceil_div(size, bs);
    ceil_div_covers(size, bs);
    rooms_grow(f.list, bs, 0);
    rooms_grow(f.list, bs, 1);
    let t = f.list.take(1);
    assert(t.drop_last() =~= Seq::empty());
    assert(t.last() == f.list[0]);
    let root = node_size(f.list[0], bs);
    ceil_div_covers(root, bs);
    assert(ceil_div(root, bs) >= 1) by (nonlinear_arith)
        requires
            ceil_div(root, bs) * bs >= root,
            root >= 1,
            bs > 0,
    ;
    assert(dir_room(t.drop_last(), bs) == 0);
    assert(dir_room(t, bs) >= 1);
    reaches(f.table_block, table, size, bs, f.table_block, f.dir_block);
    reaches(f.dir_block, 0, 0, bs, f.dir_block, f.file_block);
    reaches(f.file_block, 0, 0, bs, f.file_block, f.end_block);
    reaches(f.table_block + 1, 0, 0, bs, f.table_block + 1, f.end_block);
    assert(f.table_block * bs == base + inodes * bs && base >= 0) by (nonlinear_arith)
        requires
            f.table_block == f.meta_block + inodes,
            base == f.meta_block * bs,
            f.meta_block >= 0,
            bs > 0,
    ;
    assert(inodes * bs >= bs) by (nonlinear_arith)
        requires
            inodes >= 1,
            bs > 0,
    ;
}

/// Writing the metadata of a plan makes the image hold it, whatever was there
/// before.
pub proof fn metadata_arrives(s: Seq<u8>, f: Fresh, next: int)
    requires
        settled_plan(f, next),
    ensures
        carries(laid_all(s, fresh_writes(f)), f),
        laid_all(s, fresh_writes(f)).len() >= s.len(),
{
    let bs = f.block_size;
    let n = f.list.len() as int;
    blocks_in_order(f, next);
    let tw: Seq<PatchView> = if f.table.len() == 0 {
        Seq::empty()
    } else {
        seq![PatchView { at: f.table_block * bs, data: f.table }]
    };
    let t0 = laid_all(s, tw);
    let t1 = laid_all(t0, inode_writes(f, n));
    let t2 = laid_all(t1, dir_writes(f, n));
    laid_all_joins(s, tw, inode_writes(f, n));
    laid_all_joins(s, tw + inode_writes(f, n), dir_writes(f, n));
    assert(t2 == laid_all(s, fresh_writes(f)));
    writes_never_shorten(s, tw);
    inode_writes_apart(f, next, n, f.table_block * bs, 0);
    writes_never_shorten(t0, inode_writes(f, n));
    dir_writes_apart(f, next, n, 0, 0);
    writes_never_shorten(t1, dir_writes(f, n));
    if f.table.len() > 0 {
        laid_all_one(s, PatchView { at: f.table_block * bs, data: f.table });
        laid_is_there(s, f.table_block * bs, f.table);
        inode_writes_apart(f, next, n, f.table_block * bs, f.table.len() as int);
        writes_stay_apart(t0, inode_writes(f, n), f.table_block * bs, f.table);
        dir_writes_apart(f, next, n, f.table_block * bs, f.table.len() as int);
        writes_stay_apart(t1, dir_writes(f, n), f.table_block * bs, f.table);
    }
    assert forall|k: int| 0 <= k < n implies holds(
        t2,
        inode_place(f, (#[trigger] f.list[k]).nid),
        inode_image(f, k),
    ) by {
        let p = inode_place(f, f.list[k].nid);
        inodes_arrive(t0, f, next, n, k);
        inode_bounds(f, next, k);
        dir_writes_apart(f, next, n, p, inode_image(f, k).len() as int);
        writes_stay_apart(t1, dir_writes(f, n), p, inode_image(f, k));
    }
    assert forall|k: int| 0 <= k < n && (#[trigger] f.list[k]).is_dir() implies holds(
        t2,
        raw_block_of(f, k) * bs,
        directory_content(f.list[k], bs),
    ) by {
        dirs_arrive(t1, f, next, n, k);
    }
}

/// The metadata leaves the superblock alone, unless blocks are so small that
/// the table or a directory comes to stand there.
pub proof fn metadata_spares_the_superblock(s: Seq<u8>, f: Fresh, next: int, x: Seq<u8>)
    requires
        settled_plan(f, next),
        f.block_size >= 2048 || f.meta_block * f.block_size >= 1024,
        x.len() == SUPER_END - SUPER_START,
        holds(s, SUPER_START as int, x),
    ensures
        holds(laid_all(s, fresh_writes(f)), SUPER_START as int, x),
{
    let bs = f.block_size;
    let n = f.list.len() as int;
    blocks_in_order(f, next);
    let tw: Seq<PatchView> = if f.table.len() == 0 {
        Seq::empty()
    } else {
        seq![PatchView { at: f.table_block * bs, data: f.table }]
    };
    inode_writes_apart(f, next, n, SUPER_START as int, x.len() as int);
    dir_writes_apart(f, next, n, SUPER_START as int, x.len() as int);
    assert(apart(tw, SUPER_START as int, x.len() as int));
    let w = fresh_writes(f);
    assert(w =~= tw + inode_writes(f, n) + dir_writes(f, n));
    writes_stay_apart(s, tw, SUPER_START as int, x);
    writes_stay_apart(laid_all(s, tw), inode_writes(f, n), SUPER_START as int, x);
    laid_all_joins(s, tw, inode_writes(f, n));
    writes_stay_apart(
        laid_all(s, tw + inode_writes(f, n)),
        dir_writes(f, n),
        SUPER_START as int,
        x,
    );
    laid_all_joins(s, tw + inode_writes(f, n), dir_writes(f, n));
}

/// A write behind the directories, or to the superblock, leaves the metadata
/// alone.
pub proof fn metadata_stays(d: Seq<u8>, f: Fresh, next: int, at: int, x: Seq<u8>)
    requires
        settled_plan(f, next),
        carries(d, f),
        f.file_block * f.block_size <= at || (SUPER_START <= at && at + x.len() <= SUPER_END && (
        f.block_size >= 2048 || f.meta_block * f.block_size >= 1024)),
    ensures
        carries(laid(d, at, x), f),
{
    let t = laid(d, at, x);
    blocks_in_order(f, next);
    if f.table.len() > 0 {
        laid_stays_apart(d, at, x, f.table_block * f.block_size, f.table);
    }
    assert forall|k: int| 0 <= k < f.list.len() implies holds(
        t,
        inode_place(f, (#[trigger] f.list[k]).nid),
        inode_image(f, k),
    ) by {
        inode_bounds(f, next, k);
        laid_stays_apart(d, at, x, inode_place(f, f.list[k].nid), inode_image(f, k));
    }
    assert forall|k: int| 0 <= k < f.list.len() && (#[trigger] f.list[k]).is_dir() implies holds(
        t,
        raw_block_of(f, k) * f.block_size,
        directory_content(f.list[k], f.block_size),
    ) by {
        content_bounds(f, next, k);
        laid_stays_apart(
            d,
            at,
            x,
            raw_block_of(f, k) * f.block_size,
            directory_content(f.list[k], f.block_size),
        );
    }
}

} // verus!
