//! Edits of an EROFS image in its place: every edited node reads back.
use super::ext4_images::own_numbers;
use super::layout::directory_content;
use super::node::{all_preorder, preorder, NodeView, PayloadView};
use super::overlay::{
    all_settled, all_walked, appended_content, area_count, arranged_tree, bodies_agree,
    content_step, directory_step, empty_tail, fresh_number, overlay_tail, owner_step,
    placed_content, repatched_inode, settled_child, walk_step, walked, with_fresh, with_repatch,
    xattr_area_of, DirNamesView, TailView, Walk,
};
use super::overlay_laws::{
    appending_grows, fresh_bytes, fresh_inodes_grow, grew, growth_adds_up, names_changed,
    placing_grows, repatching_grows, settled_tree, tail_start,
};
use super::patch::{node_patches, PatchView};
use super::source::content_of;
use crate::error::Fault;
use crate::fs::erofs::inode::inode_offset;
use crate::fs::erofs::{block_size_bounds, Superblock};
use crate::image::disk_read;
use crate::math::{ceil_div, ceil_div_covers};
use vstd::arithmetic::power2::pow2;
use vstd::prelude::*;

verus! {

// ---------------------------------------------------------------------
// Content in the tail
// ---------------------------------------------------------------------
/// The tail is in step with the end of the image.
pub open spec fn in_step(c: TailView, start: int, block_size: int) -> bool {
    &&& c.cursor == start + c.tail.len()
    &&& c.cursor % block_size == 0
    &&& 0 <= start
}

/// The content stands in the tail, from the block `raw` on.
pub open spec fn in_tail(
    c: TailView,
    start: int,
    block_size: int,
    data: Seq<u8>,
    raw: u32,
    size: u64,
) -> bool {
    if data.len() == 0 {
        raw == 0 && size == 0
    } else {
        size == data.len() as u64 && exists|o: int| #[trigger]
            stands(c, start, block_size, data, raw, o)
    }
}

/// The content stands at the position `o` of the tail.
pub open spec fn stands(
    c: TailView,
    start: int,
    block_size: int,
    data: Seq<u8>,
    raw: u32,
    o: int,
) -> bool {
    &&& 0 <= o
    &&& o + data.len() <= c.tail.len()
    &&& c.tail.subrange(o, o + data.len()) == data
    &&& (start + o) % block_size == 0
    &&& raw == ((start + o) / block_size) as u32
}

proof fn tails_keep_content(
    c: TailView,
    t: TailView,
    start: int,
    block_size: int,
    data: Seq<u8>,
    raw: u32,
    size: u64,
)
    requires
        grew(c, t),
        in_tail(c, start, block_size, data, raw, size),
    ensures
        in_tail(t, start, block_size, data, raw, size),
{
    if data.len() > 0 {
        let o = choose|o: int| #[trigger] stands(c, start, block_size, data, raw, o);
        assert(t.tail.subrange(o, o + data.len()) =~= data) by {
            assert forall|i: int| 0 <= i < data.len() implies t.tail[o + i] == #[trigger] data[i] by {
                assert(c.tail.subrange(o, o + data.len())[i] == data[i]);
            }
        }
        assert(stands(t, start, block_size, data, raw, o));
    }
}

/// A tail that grows by whole blocks stays in step.
pub proof fn steps_stay_in_step(c: TailView, t: TailView, start: int, block_size: int)
    requires
        0 < block_size,
        in_step(c, start, block_size),
        grew(c, t),
        (t.cursor - c.cursor) % block_size == 0,
    ensures
        in_step(t, start, block_size),
{
    vstd::arithmetic::div_mod::lemma_add_mod_noop(c.cursor, t.cursor - c.cursor, block_size);
}

proof fn appended_stands(c: TailView, sb: Superblock, start: int, data: Seq<u8>)
    requires
        0 < sb.block_size,
        in_step(c, start, sb.block_size as int),
        appended_content(c, sb, data) is Ok,
    ensures
        ({
            let (t, raw, size) = appended_content(c, sb, data)->Ok_0;
            &&& grew(c, t)
            &&& in_step(t, start, sb.block_size as int)
            &&& in_tail(t, start, sb.block_size as int, data, raw, size)
            &&& t.patches == c.patches
            &&& t.rewritten == c.rewritten
        }),
{
    let bs = sb.block_size as int;
    if data.len() > 0 {
        appending_grows(c, bs, data);
        let (t, raw, size) = appended_content(c, sb, data)->Ok_0;
        steps_stay_in_step(c, t, start, bs);
        assert(stands(t, start, bs, data, raw, c.tail.len() as int));
    }
}

/// The content that an edit brings to a file, or none where the file shares
/// plain blocks of the image.
pub open spec fn new_content(sb: Superblock, d: Seq<u8>, n: NodeView) -> Option<Seq<u8>> {
    match n.payload {
        PayloadView::Memory(data) => Some(data),
        _ => if n.original_nid == 0 {
            Some(n.data())
        } else if n.layout == 0 {
            None
        } else {
            match content_of(sb, d, n.original_nid) {
                Ok(data) => Some(data),
                Err(_) => None,
            }
        },
    }
}

/// Where the content of a file is: new content stands in the tail, shared
/// content stays.
pub open spec fn content_there(
    sb: Superblock,
    d: Seq<u8>,
    start: int,
    c: TailView,
    n: NodeView,
    raw: u32,
    size: u64,
) -> bool {
    match new_content(sb, d, n) {
        Some(data) => in_tail(c, start, sb.block_size as int, data, raw, size),
        None => raw == n.raw_block && size == n.data_size,
    }
}

proof fn placed_is_there(c: TailView, sb: Superblock, d: Seq<u8>, start: int, n: NodeView)
    requires
        0 < sb.block_size,
        in_step(c, start, sb.block_size as int),
        placed_content(c, sb, d, n) is Ok,
    ensures
        ({
            let (t, raw, size) = placed_content(c, sb, d, n)->Ok_0;
            &&& grew(c, t)
            &&& in_step(t, start, sb.block_size as int)
            &&& content_there(sb, d, start, t, n, raw, size)
            &&& t.patches == c.patches
            &&& t.rewritten == c.rewritten
        }),
{
    if let Some(data) = new_content(sb, d, n) {
        appended_stands(c, sb, start, data);
    }
}

proof fn content_stays(
    sb: Superblock,
    d: Seq<u8>,
    start: int,
    c: TailView,
    t: TailView,
    n: NodeView,
    raw: u32,
    size: u64,
)
    requires
        grew(c, t),
        content_there(sb, d, start, c, n, raw, size),
    ensures
        content_there(sb, d, start, t, n, raw, size),
{
    if let Some(data) = new_content(sb, d, n) {
        tails_keep_content(c, t, start, sb.block_size as int, data, raw, size);
    }
}

// ---------------------------------------------------------------------
// Inodes in the plan
// ---------------------------------------------------------------------
/// The patch `w` writes the inode of a node again.
pub open spec fn rewrites(
    sb: Superblock,
    d: Seq<u8>,
    w: PatchView,
    n: NodeView,
    size: u64,
    raw: u32,
) -> bool {
    &&& w.at == inode_offset(sb, n.nid)
    &&& disk_read(d, w.at, 64) matches Ok(x) && repatched_inode(
        x,
        n.nid,
        n.mode,
        size,
        raw,
        n.uid,
        n.gid,
    ) == Ok::<Seq<u8>, Fault>(w.data)
}

/// The file was replaced: its inode is written again, and its content is
/// there.
#[verifier::opaque]
pub open spec fn replaced_there(
    sb: Superblock,
    d: Seq<u8>,
    start: int,
    c: TailView,
    n: NodeView,
) -> bool {
    exists|j: int, size: u64, raw: u32|
        0 <= j < c.patches.len() && #[trigger] rewrites(sb, d, c.patches[j], n, size, raw)
            && content_there(sb, d, start, c, n, raw, size)
}

/// The directory was written again: its inode, and its entries.
#[verifier::opaque]
pub open spec fn directory_there(
    sb: Superblock,
    d: Seq<u8>,
    start: int,
    c: TailView,
    n: NodeView,
) -> bool {
    &&& directory_content(n, sb.block_size as int).len() > 0
    &&& exists|j: int, size: u64, raw: u32|
        0 <= j < c.patches.len() && #[trigger] rewrites(sb, d, c.patches[j], n, size, raw)
            && in_tail(
            c,
            start,
            sb.block_size as int,
            directory_content(n, sb.block_size as int),
            raw,
            size,
        )
}

/// The fresh inode of a node stands at the position `o` of the tail, in a
/// block of its own.
pub open spec fn creates(
    sb: Superblock,
    start: int,
    c: TailView,
    n: NodeView,
    size: u64,
    raw: u32,
    area: Seq<u8>,
    o: int,
) -> bool {
    let x = fresh_bytes(n, n.nid, size as u32, raw, area);
    &&& 0 <= o
    &&& inode_offset(sb, n.nid) == start + o
    &&& o + 64 <= c.tail.len()
    &&& o + x.len() <= c.tail.len()
    &&& c.tail.subrange(o, o + x.len()) == x
}

/// Blocks are made of whole slots of inodes.
pub open spec fn has_whole_slots(sb: Superblock) -> bool {
    64 <= sb.block_size && sb.block_size % 64 == 0
}

/// The superblock of an image makes blocks of whole slots.
pub proof fn blocks_have_whole_slots(sb: Superblock)
    requires
        sb.wf(),
    ensures
        has_whole_slots(sb),
        sb.block_size <= 0x10_0000,
{
    let bits = choose|bits: nat| 9 <= bits <= 20 && sb.block_size == #[trigger] pow2(bits);
    block_size_bounds(bits);
    let rest = (bits - 6) as nat;
    vstd::arithmetic::power2::lemma_pow2_adds(6, rest);
    vstd::arithmetic::power2::lemma2_to64();
    assert(sb.block_size == 64 * pow2(rest));
}

/// Where an inode that is appended comes to stand.
pub proof fn fresh_numbers_stand(sb: Superblock, cursor: int)
    requires
        has_whole_slots(sb),
        cursor % (sb.block_size as int) == 0,
        sb.meta_blkaddr * sb.block_size < cursor <= u64::MAX,
    ensures
        inode_offset(sb, fresh_number(sb, cursor)) == cursor,
        fresh_number(sb, cursor) > 0,
{
    let bs = sb.block_size as int;
    let base = sb.meta_blkaddr * sb.block_size;
    let q = cursor / bs;
    let w = bs / 32;
    vstd::arithmetic::div_mod::lemma_fundamental_div_mod(cursor, bs);
    assert(cursor - base == 32 * ((q - sb.meta_blkaddr) * w)) by (nonlinear_arith)
        requires
            cursor == bs * q,
            base == sb.meta_blkaddr * bs,
            bs == 32 * w,
    ;
    assert(0 <= base) by (nonlinear_arith)
        requires
            base == sb.meta_blkaddr * sb.block_size,
    ;
}

/// The attributes that a new file has: those of the file that it is a copy
/// of.
pub open spec fn new_area(sb: Superblock, d: Seq<u8>, n: NodeView) -> Seq<u8> {
    if n.original_nid == 0 {
        Seq::empty()
    } else {
        match xattr_area_of(sb, d, n.original_nid) {
            Ok(area) => area,
            Err(_) => Seq::empty(),
        }
    }
}

/// The file is new: it has a fresh inode, and its content is there.
#[verifier::opaque]
pub open spec fn created_there(
    sb: Superblock,
    d: Seq<u8>,
    start: int,
    c: TailView,
    n: NodeView,
) -> bool {
    exists|o: int, size: u64, raw: u32| #[trigger]
        creates(sb, start, c, n, size, raw, new_area(sb, d, n), o) && content_there(
            sb,
            d,
            start,
            c,
            n,
            raw,
            size,
        )
}

/// Mode and owner of the node are patched.
pub open spec fn owner_there(sb: Superblock, d: Seq<u8>, c: TailView, n: NodeView) -> bool {
    node_patches(sb, d, n) matches Ok(w) && exists|j: int|
        0 <= j && j + w.len() <= c.patches.len() && #[trigger] c.patches.subrange(
            j,
            (j + w.len()) as int,
        ) == w
}

proof fn rewrites_stay(
    sb: Superblock,
    d: Seq<u8>,
    start: int,
    c: TailView,
    t: TailView,
    n: NodeView,
)
    requires
        grew(c, t),
        replaced_there(sb, d, start, c, n),
    ensures
        replaced_there(sb, d, start, t, n),
{
    reveal(replaced_there);
    let (j, size, raw) = choose|j: int, size: u64, raw: u32|
        0 <= j < c.patches.len() && #[trigger] rewrites(sb, d, c.patches[j], n, size, raw)
            && content_there(sb, d, start, c, n, raw, size);
    content_stays(sb, d, start, c, t, n, raw, size);
    assert(rewrites(sb, d, t.patches[j], n, size, raw));
}

proof fn directories_stay(
    sb: Superblock,
    d: Seq<u8>,
    start: int,
    c: TailView,
    t: TailView,
    n: NodeView,
)
    requires
        grew(c, t),
        directory_there(sb, d, start, c, n),
    ensures
        directory_there(sb, d, start, t, n),
{
    reveal(directory_there);
    let bs = sb.block_size as int;
    let data = directory_content(n, bs);
    let (j, size, raw) = choose|j: int, size: u64, raw: u32|
        0 <= j < c.patches.len() && #[trigger] rewrites(sb, d, c.patches[j], n, size, raw)
            && in_tail(c, start, bs, data, raw, size);
    tails_keep_content(c, t, start, bs, data, raw, size);
    assert(rewrites(sb, d, t.patches[j], n, size, raw));
}

proof fn creations_stay(
    sb: Superblock,
    d: Seq<u8>,
    start: int,
    c: TailView,
    t: TailView,
    n: NodeView,
)
    requires
        grew(c, t),
        created_there(sb, d, start, c, n),
    ensures
        created_there(sb, d, start, t, n),
{
    reveal(created_there);
    let area = new_area(sb, d, n);
    let (o, size, raw) = choose|o: int, size: u64, raw: u32| #[trigger]
        creates(sb, start, c, n, size, raw, area, o) && content_there(
            sb,
            d,
            start,
            c,
            n,
            raw,
            size,
        );
    content_stays(sb, d, start, c, t, n, raw, size);
    let x = fresh_bytes(n, n.nid, size as u32, raw, area);
    assert(t.tail.subrange(o, o + x.len()) =~= x) by {
        assert forall|i: int| 0 <= i < x.len() implies t.tail[o + i] == #[trigger] x[i] by {
            assert(c.tail.subrange(o, o + x.len())[i] == x[i]);
        }
    }
    assert(creates(sb, start, t, n, size, raw, area, o));
}

proof fn owners_stay(sb: Superblock, d: Seq<u8>, c: TailView, t: TailView, n: NodeView)
    requires
        grew(c, t),
        owner_there(sb, d, c, n),
    ensures
        owner_there(sb, d, t, n),
{
    let w = node_patches(sb, d, n)->Ok_0;
    let j = choose|j: int|
        0 <= j && j + w.len() <= c.patches.len() && #[trigger] c.patches.subrange(
            j,
            (j + w.len()) as int,
        ) == w;
    assert(t.patches.subrange(j, (j + w.len()) as int) =~= w) by {
        assert forall|i: int| 0 <= i < w.len() implies t.patches[j + i] == #[trigger] w[i] by {
            assert(c.patches.subrange(j, (j + w.len()) as int)[i] == w[i]);
        }
    }
}

proof fn inodes_stay_in_the_plan(
    sb: Superblock,
    d: Seq<u8>,
    start: int,
    c: TailView,
    t: TailView,
    n: NodeView,
)
    requires
        grew(c, t),
    ensures
        replaced_there(sb, d, start, c, n) ==> replaced_there(sb, d, start, t, n),
        directory_there(sb, d, start, c, n) ==> directory_there(sb, d, start, t, n),
        created_there(sb, d, start, c, n) ==> created_there(sb, d, start, t, n),
        owner_there(sb, d, c, n) ==> owner_there(sb, d, t, n),
{
    if replaced_there(sb, d, start, c, n) {
        rewrites_stay(sb, d, start, c, t, n);
    }
    if directory_there(sb, d, start, c, n) {
        directories_stay(sb, d, start, c, t, n);
    }
    if created_there(sb, d, start, c, n) {
        creations_stay(sb, d, start, c, t, n);
    }
    if owner_there(sb, d, c, n) {
        owners_stay(sb, d, c, t, n);
    }
}

// ---------------------------------------------------------------------
// New files
// ---------------------------------------------------------------------
/// Every inode from the number `k` on of those written whole is that of a
/// new file of the list.
spec fn all_created(
    sb: Superblock,
    d: Seq<u8>,
    start: int,
    c: TailView,
    k: int,
    list: Seq<NodeView>,
) -> bool {
    forall|i: int|
        k <= i < c.rewritten.len() ==> created_among(sb, d, start, c, #[trigger] c.rewritten[i], list)
}

spec fn created_among(
    sb: Superblock,
    d: Seq<u8>,
    start: int,
    c: TailView,
    nid: u64,
    list: Seq<NodeView>,
) -> bool {
    exists|i: int|
        0 <= i < list.len() && (#[trigger] list[i]).nid == nid && created_there(
            sb,
            d,
            start,
            c,
            list[i],
        )
}

proof fn created_among_more(
    sb: Superblock,
    d: Seq<u8>,
    start: int,
    c: TailView,
    t: TailView,
    nid: u64,
    list: Seq<NodeView>,
    more: Seq<NodeView>,
    off: int,
)
    requires
        grew(c, t),
        created_among(sb, d, start, c, nid, list),
        0 <= off,
        off + list.len() <= more.len(),
        forall|i: int| 0 <= i < list.len() ==> more[off + i] == #[trigger] list[i],
    ensures
        created_among(sb, d, start, t, nid, more),
{
    let i = choose|i: int|
        0 <= i < list.len() && (#[trigger] list[i]).nid == nid && created_there(
            sb,
            d,
            start,
            c,
            list[i],
        );
    inodes_stay_in_the_plan(sb, d, start, c, t, list[i]);
    assert(more[off + i] == list[i]);
}

proof fn settled_child_is_created(
    c: TailView,
    sb: Superblock,
    d: Seq<u8>,
    start: int,
    n: NodeView,
    parent: u64,
    children: Seq<NodeView>,
)
    requires
        has_whole_slots(sb),
        in_step(c, start, sb.block_size as int),
        settled_child(c, sb, d, n, parent) is Ok,
    ensures
        ({
            let (m, t) = settled_child(c, sb, d, n, parent)->Ok_0;
            &&& grew(c, t)
            &&& in_step(t, start, sb.block_size as int)
            &&& n.nid != 0 ==> t == c
            &&& n.nid == 0 ==> t.rewritten == c.rewritten.push(m.nid) && created_there(
                sb,
                d,
                start,
                t,
                NodeView { children, ..m },
            )
        }),
{
    if n.nid == 0 {
        let area = new_area(sb, d, n);
        placed_is_there(c, sb, d, start, n);
        placing_grows(c, sb, d, n);
        let (c1, raw, size) = placed_content(c, sb, d, n)->Ok_0;
        let (c2, nid) = with_fresh(c1, sb, n, size as u32, raw, area)->Ok_0;
        let (m, t) = settled_child(c, sb, d, n, parent)->Ok_0;
        let whole = NodeView { children, ..m };
        fresh_inodes_grow(c1, sb, n, size as u32, raw, area);
        steps_stay_in_step(c1, c2, start, sb.block_size as int);
        fresh_numbers_stand(sb, c1.cursor);
        fresh_inode_room(c1, c2, sb.block_size as int);
        assert(grew(c1, t));
        growth_adds_up(c, c1, t);
        content_stays(sb, d, start, c1, t, n, raw, size);
        assert(new_content(sb, d, whole) == new_content(sb, d, n));
        assert(content_there(sb, d, start, t, whole, raw, size));
        reveal(created_there);
        let o = c1.tail.len() as int;
        bodies_agree(
            NodeView { nid, ..n },
            NodeView { nid: whole.nid, ..whole },
            0,
            area_count(area),
            size as u32,
            raw,
        );
        assert(new_area(sb, d, whole) == area);
        assert(creates(sb, start, t, whole, size, raw, area, o));
    }
}

proof fn fresh_inode_room(c: TailView, t: TailView, block_size: int)
    requires
        grew(c, t),
        64 <= block_size,
        c.cursor < t.cursor,
        (t.cursor - c.cursor) % block_size == 0,
    ensures
        c.tail.len() + 64 <= t.tail.len(),
{
    let n = t.cursor - c.cursor;
    vstd::arithmetic::div_mod::lemma_fundamental_div_mod(n, block_size);
    assert(n >= block_size) by (nonlinear_arith)
        requires
            n == block_size * (n / block_size),
            n > 0,
            block_size > 0,
    ;
}

proof fn settled_files_are_created(
    c: TailView,
    sb: Superblock,
    d: Seq<u8>,
    start: int,
    s: Seq<NodeView>,
    parent: u64,
)
    requires
        has_whole_slots(sb),
        in_step(c, start, sb.block_size as int),
        all_settled(c, sb, d, s, parent) is Ok,
    ensures
        ({
            let (done, t) = all_settled(c, sb, d, s, parent)->Ok_0;
            &&& grew(c, t)
            &&& in_step(t, start, sb.block_size as int)
            &&& all_created(sb, d, start, t, c.rewritten.len() as int, all_preorder(done))
        }),
    decreases s,
{
    if s.len() > 0 {
        let front = s.subrange(0, s.len() - 1);
        let n = s[s.len() - 1];
        let (done, c1) = all_settled(c, sb, d, front, parent)->Ok_0;
        settled_files_are_created(c, sb, d, start, front, parent);
        let (m, c2) = settled_child(c1, sb, d, n, parent)->Ok_0;
        settled_child_is_created(c1, sb, d, start, n, parent, Seq::empty());
        let (children, c3) = all_settled(c2, sb, d, n.children, m.nid)->Ok_0;
        settled_files_are_created(c2, sb, d, start, n.children, m.nid);
        settled_child_is_created(c1, sb, d, start, n, parent, children);
        let whole = NodeView { children, ..m };
        let all = done.push(whole);
        let list = all_preorder(all);
        let a = all_preorder(done);
        let b = all_preorder(children);
        assert(all.subrange(0, all.len() - 1) =~= done);
        assert(list == a + preorder(whole));
        assert(list == a + (seq![whole] + b));
        growth_adds_up(c, c1, c2);
        growth_adds_up(c, c2, c3);
        growth_adds_up(c1, c2, c3);
        assert forall|i: int| c.rewritten.len() <= i < c3.rewritten.len() implies created_among(
            sb,
            d,
            start,
            c3,
            #[trigger] c3.rewritten[i],
            list,
        ) by {
            if i < c1.rewritten.len() {
                assert(c3.rewritten[i] == c1.rewritten[i]);
                created_among_more(sb, d, start, c1, c3, c1.rewritten[i], a, list, 0);
            } else if i < c2.rewritten.len() {
                assert(c3.rewritten[i] == c2.rewritten[i]);
                assert(c2.rewritten[i] == m.nid);
                inodes_stay_in_the_plan(sb, d, start, c2, c3, whole);
                assert(list[a.len() as int] == whole);
            } else {
                created_among_more(
                    sb,
                    d,
                    start,
                    c3,
                    c3,
                    c3.rewritten[i],
                    b,
                    list,
                    (a.len() + 1) as int,
                );
            }
        }
    }
}

// ---------------------------------------------------------------------
// Walks
// ---------------------------------------------------------------------
/// All nodes of a tree are in the list.
spec fn is_listed(list: Seq<NodeView>, s: Seq<NodeView>) -> bool {
    forall|k: int| 0 <= k < s.len() ==> list.contains(#[trigger] s[k])
}

proof fn parts_are_listed(list: Seq<NodeView>, s: Seq<NodeView>, a: Seq<NodeView>, off: int)
    requires
        is_listed(list, s),
        0 <= off,
        off + a.len() <= s.len(),
        forall|k: int| 0 <= k < a.len() ==> s[off + k] == #[trigger] a[k],
    ensures
        is_listed(list, a),
{
    assert forall|k: int| 0 <= k < a.len() implies list.contains(#[trigger] a[k]) by {
        assert(list.contains(s[off + k]));
    }
}

proof fn rewritten_stays(c: TailView, t: TailView, nid: u64)
    requires
        grew(c, t),
        c.rewritten.contains(nid),
    ensures
        t.rewritten.contains(nid),
{
    let i = choose|i: int| 0 <= i < c.rewritten.len() && c.rewritten[i] == nid;
    assert(t.rewritten[i] == nid);
}

/// Why an inode was written whole: it is fresh, or the file of it was
/// replaced, or the names in the directory of it changed.
spec fn has_cause(
    sb: Superblock,
    d: Seq<u8>,
    start: int,
    before: Seq<DirNamesView>,
    fresh: Seq<u64>,
    c: TailView,
    nid: u64,
    list: Seq<NodeView>,
) -> bool {
    fresh.contains(nid) || exists|i: int| #[trigger]
        is_cause(sb, d, start, before, c, nid, list, i)
}

spec fn is_cause(
    sb: Superblock,
    d: Seq<u8>,
    start: int,
    before: Seq<DirNamesView>,
    c: TailView,
    nid: u64,
    list: Seq<NodeView>,
    i: int,
) -> bool {
    &&& 0 <= i < list.len()
    &&& list[i].nid == nid
    &&& (list[i].content_changed && replaced_there(sb, d, start, c, list[i])) || names_changed(
        before,
        list[i],
    )
}

spec fn all_have_causes(
    sb: Superblock,
    d: Seq<u8>,
    start: int,
    before: Seq<DirNamesView>,
    fresh: Seq<u64>,
    c: TailView,
    list: Seq<NodeView>,
) -> bool {
    forall|i: int|
        0 <= i < c.rewritten.len() ==> has_cause(
            sb,
            d,
            start,
            before,
            fresh,
            c,
            #[trigger] c.rewritten[i],
            list,
        )
}

proof fn causes_stay(
    sb: Superblock,
    d: Seq<u8>,
    start: int,
    before: Seq<DirNamesView>,
    fresh: Seq<u64>,
    c: TailView,
    t: TailView,
    nid: u64,
    list: Seq<NodeView>,
)
    requires
        grew(c, t),
        has_cause(sb, d, start, before, fresh, c, nid, list),
    ensures
        has_cause(sb, d, start, before, fresh, t, nid, list),
{
    if !fresh.contains(nid) {
        let i = choose|i: int| #[trigger] is_cause(sb, d, start, before, c, nid, list, i);
        inodes_stay_in_the_plan(sb, d, start, c, t, list[i]);
        assert(is_cause(sb, d, start, before, t, nid, list, i));
    }
}

/// What a walk has done for a node.
spec fn is_done(
    walk: Walk,
    sb: Superblock,
    d: Seq<u8>,
    start: int,
    before: Seq<DirNamesView>,
    c: TailView,
    n: NodeView,
) -> bool {
    match walk {
        Walk::Content => n.nid != 0 && n.content_changed ==> c.rewritten.contains(n.nid),
        Walk::Directories => n.nid != 0 && names_changed(before, n) ==> directory_there(
            sb,
            d,
            start,
            c,
            n,
        ),
        Walk::Owners => n.nid != 0 && n.modified ==> c.rewritten.contains(n.nid) || owner_there(
            sb,
            d,
            c,
            n,
        ),
    }
}

proof fn done_stays(
    walk: Walk,
    sb: Superblock,
    d: Seq<u8>,
    start: int,
    before: Seq<DirNamesView>,
    c: TailView,
    t: TailView,
    n: NodeView,
)
    requires
        grew(c, t),
        is_done(walk, sb, d, start, before, c, n),
    ensures
        is_done(walk, sb, d, start, before, t, n),
{
    inodes_stay_in_the_plan(sb, d, start, c, t, n);
    if c.rewritten.contains(n.nid) {
        rewritten_stays(c, t, n.nid);
    }
}

/// The patch of an inode that is written again is the last one.
pub proof fn repatch_is_there(
    c: TailView,
    sb: Superblock,
    d: Seq<u8>,
    n: NodeView,
    size: u64,
    raw: u32,
)
    requires
        with_repatch(c, sb, d, n, size, raw) is Ok,
    ensures
        ({
            let t = with_repatch(c, sb, d, n, size, raw)->Ok_0;
            rewrites(sb, d, t.patches[t.patches.len() - 1], n, size, raw)
        }),
{
}

proof fn content_step_is_done(
    c: TailView,
    sb: Superblock,
    d: Seq<u8>,
    start: int,
    before: Seq<DirNamesView>,
    n: NodeView,
)
    requires
        0 < sb.block_size,
        in_step(c, start, sb.block_size as int),
        content_step(c, sb, d, n) is Ok,
    ensures
        ({
            let t = content_step(c, sb, d, n)->Ok_0;
            &&& grew(c, t)
            &&& in_step(t, start, sb.block_size as int)
            &&& is_done(Walk::Content, sb, d, start, before, t, n)
            &&& t.rewritten == c.rewritten || (t.rewritten == c.rewritten.push(n.nid)
                && n.content_changed && replaced_there(sb, d, start, t, n))
        }),
{
    let t = content_step(c, sb, d, n)->Ok_0;
    if !(n.nid == 0 || !n.content_changed || c.rewritten.contains(n.nid)) {
        placed_is_there(c, sb, d, start, n);
        let (c1, raw, size) = placed_content(c, sb, d, n)->Ok_0;
        repatching_grows(c1, sb, d, n, size, raw);
        repatch_is_there(c1, sb, d, n, size, raw);
        growth_adds_up(c, c1, t);
        content_stays(sb, d, start, c1, t, n, raw, size);
        reveal(replaced_there);
        assert(t.rewritten[t.rewritten.len() - 1] == n.nid);
    }
}

proof fn directory_step_is_done(
    c: TailView,
    sb: Superblock,
    d: Seq<u8>,
    start: int,
    before: Seq<DirNamesView>,
    n: NodeView,
)
    requires
        0 < sb.block_size,
        in_step(c, start, sb.block_size as int),
        directory_step(c, sb, d, before, n) is Ok,
    ensures
        ({
            let t = directory_step(c, sb, d, before, n)->Ok_0;
            &&& grew(c, t)
            &&& in_step(t, start, sb.block_size as int)
            &&& is_done(Walk::Directories, sb, d, start, before, t, n)
            &&& t.rewritten == c.rewritten || (t.rewritten == c.rewritten.push(n.nid)
                && names_changed(before, n))
        }),
{
    let bs = sb.block_size as int;
    let t = directory_step(c, sb, d, before, n)->Ok_0;
    if n.nid != 0 && names_changed(before, n) {
        let data = directory_content(n, bs);
        appended_stands(c, sb, start, data);
        let (c1, raw, size) = appended_content(c, sb, data)->Ok_0;
        repatching_grows(c1, sb, d, n, size, raw);
        repatch_is_there(c1, sb, d, n, size, raw);
        growth_adds_up(c, c1, t);
        tails_keep_content(c1, t, start, bs, data, raw, size);
        reveal(directory_there);
    }
}

proof fn owner_step_is_done(
    c: TailView,
    sb: Superblock,
    d: Seq<u8>,
    start: int,
    before: Seq<DirNamesView>,
    n: NodeView,
)
    requires
        in_step(c, start, sb.block_size as int),
        owner_step(c, sb, d, n) is Ok,
    ensures
        ({
            let t = owner_step(c, sb, d, n)->Ok_0;
            &&& grew(c, t)
            &&& in_step(t, start, sb.block_size as int)
            &&& is_done(Walk::Owners, sb, d, start, before, t, n)
            &&& t.rewritten == c.rewritten
        }),
{
    let t = owner_step(c, sb, d, n)->Ok_0;
    if !(n.nid == 0 || !n.modified || c.rewritten.contains(n.nid)) {
        let w = node_patches(sb, d, n)->Ok_0;
        let j = c.patches.len() as int;
        assert(t.patches.subrange(j, (j + w.len()) as int) =~= w);
    }
}

proof fn steps_are_done(
    walk: Walk,
    c: TailView,
    sb: Superblock,
    d: Seq<u8>,
    start: int,
    before: Seq<DirNamesView>,
    fresh: Seq<u64>,
    n: NodeView,
    list: Seq<NodeView>,
)
    requires
        0 < sb.block_size,
        in_step(c, start, sb.block_size as int),
        walk_step(walk, c, sb, d, before, n) is Ok,
        all_have_causes(sb, d, start, before, fresh, c, list),
        list.contains(n),
    ensures
        ({
            let t = walk_step(walk, c, sb, d, before, n)->Ok_0;
            &&& grew(c, t)
            &&& in_step(t, start, sb.block_size as int)
            &&& is_done(walk, sb, d, start, before, t, n)
            &&& all_have_causes(sb, d, start, before, fresh, t, list)
            &&& walk is Owners ==> t.rewritten == c.rewritten
        }),
{
    let t = walk_step(walk, c, sb, d, before, n)->Ok_0;
    match walk {
        Walk::Content => content_step_is_done(c, sb, d, start, before, n),
        Walk::Directories => directory_step_is_done(c, sb, d, start, before, n),
        Walk::Owners => owner_step_is_done(c, sb, d, start, before, n),
    }
    assert forall|i: int| 0 <= i < t.rewritten.len() implies has_cause(
        sb,
        d,
        start,
        before,
        fresh,
        t,
        #[trigger] t.rewritten[i],
        list,
    ) by {
        if i < c.rewritten.len() {
            assert(t.rewritten[i] == c.rewritten[i]);
            causes_stay(sb, d, start, before, fresh, c, t, c.rewritten[i], list);
        } else {
            let k = choose|k: int| 0 <= k < list.len() && list[k] == n;
            assert(is_cause(sb, d, start, before, t, n.nid, list, k));
        }
    }
}

proof fn walks_are_done(
    walk: Walk,
    c: TailView,
    sb: Superblock,
    d: Seq<u8>,
    start: int,
    before: Seq<DirNamesView>,
    fresh: Seq<u64>,
    n: NodeView,
    list: Seq<NodeView>,
)
    requires
        0 < sb.block_size,
        in_step(c, start, sb.block_size as int),
        walked(walk, c, sb, d, before, n) is Ok,
        all_have_causes(sb, d, start, before, fresh, c, list),
        is_listed(list, preorder(n)),
    ensures
        ({
            let t = walked(walk, c, sb, d, before, n)->Ok_0;
            &&& grew(c, t)
            &&& in_step(t, start, sb.block_size as int)
            &&& all_have_causes(sb, d, start, before, fresh, t, list)
            &&& walk is Owners ==> t.rewritten == c.rewritten
            &&& forall|k: int|
                0 <= k < preorder(n).len() ==> is_done(
                    walk,
                    sb,
                    d,
                    start,
                    before,
                    t,
                    #[trigger] preorder(n)[k],
                )
        }),
    decreases n,
{
    let c1 = walk_step(walk, c, sb, d, before, n)->Ok_0;
    let t = walked(walk, c, sb, d, before, n)->Ok_0;
    assert(preorder(n)[0] == n);
    assert(list.contains(preorder(n)[0]));
    steps_are_done(walk, c, sb, d, start, before, fresh, n, list);
    let rest = all_preorder(n.children);
    parts_are_listed(list, preorder(n), rest, 1);
    all_walks_are_done(walk, c1, sb, d, start, before, fresh, n.children, list);
    growth_adds_up(c, c1, t);
    assert forall|k: int| 0 <= k < preorder(n).len() implies is_done(
        walk,
        sb,
        d,
        start,
        before,
        t,
        #[trigger] preorder(n)[k],
    ) by {
        if k == 0 {
            done_stays(walk, sb, d, start, before, c1, t, n);
        } else {
            assert(preorder(n)[k] == rest[k - 1]);
        }
    }
}

proof fn all_walks_are_done(
    walk: Walk,
    c: TailView,
    sb: Superblock,
    d: Seq<u8>,
    start: int,
    before: Seq<DirNamesView>,
    fresh: Seq<u64>,
    s: Seq<NodeView>,
    list: Seq<NodeView>,
)
    requires
        0 < sb.block_size,
        in_step(c, start, sb.block_size as int),
        all_walked(walk, c, sb, d, before, s) is Ok,
        all_have_causes(sb, d, start, before, fresh, c, list),
        is_listed(list, all_preorder(s)),
    ensures
        ({
            let t = all_walked(walk, c, sb, d, before, s)->Ok_0;
            &&& grew(c, t)
            &&& in_step(t, start, sb.block_size as int)
            &&& all_have_causes(sb, d, start, before, fresh, t, list)
            &&& walk is Owners ==> t.rewritten == c.rewritten
            &&& forall|k: int|
                0 <= k < all_preorder(s).len() ==> is_done(
                    walk,
                    sb,
                    d,
                    start,
                    before,
                    t,
                    #[trigger] all_preorder(s)[k],
                )
        }),
    decreases s,
{
    if s.len() > 0 {
        let front = s.subrange(0, s.len() - 1);
        let last = s[s.len() - 1];
        let c1 = all_walked(walk, c, sb, d, before, front)->Ok_0;
        let t = all_walked(walk, c, sb, d, before, s)->Ok_0;
        let a = all_preorder(front);
        let b = preorder(last);
        parts_are_listed(list, all_preorder(s), a, 0);
        parts_are_listed(list, all_preorder(s), b, a.len() as int);
        all_walks_are_done(walk, c, sb, d, start, before, fresh, front, list);
        walks_are_done(walk, c1, sb, d, start, before, fresh, last, list);
        growth_adds_up(c, c1, t);
        assert forall|k: int| 0 <= k < all_preorder(s).len() implies is_done(
            walk,
            sb,
            d,
            start,
            before,
            t,
            #[trigger] all_preorder(s)[k],
        ) by {
            if k < a.len() {
                assert(all_preorder(s)[k] == a[k]);
                done_stays(walk, sb, d, start, before, c1, t, a[k]);
            } else {
                assert(all_preorder(s)[k] == b[k - a.len()]);
            }
        }
    }
}

// ---------------------------------------------------------------------
// The plan as a whole
// ---------------------------------------------------------------------
/// The tail of an edit.
pub open spec fn edit_tail(
    sb: Superblock,
    d: Seq<u8>,
    root: NodeView,
    before: Seq<DirNamesView>,
) -> TailView {
    overlay_tail(sb, d, arranged_tree(root), before, tail_start(sb, d))->Ok_0
}

/// What the tail of an edit holds for a node of the tree.
pub open spec fn provided(
    sb: Superblock,
    d: Seq<u8>,
    before: Seq<DirNamesView>,
    fresh: Seq<u64>,
    t: TailView,
    m: NodeView,
) -> bool {
    let start = tail_start(sb, d);
    &&& fresh.contains(m.nid) ==> created_there(sb, d, start, t, m)
    &&& m.nid != 0 && !fresh.contains(m.nid) && m.content_changed && !m.is_dir()
        ==> replaced_there(sb, d, start, t, m)
    &&& m.nid != 0 && names_changed(before, m) ==> directory_there(sb, d, start, t, m)
    &&& m.nid != 0 && !fresh.contains(m.nid) && m.modified && !m.content_changed && !names_changed(
        before,
        m,
    ) ==> owner_there(sb, d, t, m)
}

/// The walks of an edit: the tails behind the first two of them.
proof fn walks_of_an_edit(
    sb: Superblock,
    d: Seq<u8>,
    root: NodeView,
    before: Seq<DirNamesView>,
) -> (r: (TailView, TailView))
    requires
        has_whole_slots(sb),
        overlay_tail(sb, d, arranged_tree(root), before, tail_start(sb, d)) is Ok,
        settled_tree(sb, d, root) is Ok,
    ensures
        ({
            let (n, c) = settled_tree(sb, d, root)->Ok_0;
            let t = edit_tail(sb, d, root, before);
            let start = tail_start(sb, d);
            let list = preorder(n);
            &&& in_step(t, start, sb.block_size as int)
            &&& grew(c, t)
            &&& grew(r.0, t)
            &&& grew(r.1, t)
            &&& t.rewritten == r.1.rewritten
            &&& all_created(sb, d, start, c, 0, all_preorder(n.children))
            &&& all_have_causes(sb, d, start, before, c.rewritten, r.0, list)
            &&& all_have_causes(sb, d, start, before, c.rewritten, r.1, list)
            &&& forall|k: int|
                0 <= k < list.len() ==> is_done(
                    Walk::Content,
                    sb,
                    d,
                    start,
                    before,
                    r.0,
                    #[trigger] list[k],
                ) && is_done(Walk::Directories, sb, d, start, before, r.1, list[k]) && is_done(
                    Walk::Owners,
                    sb,
                    d,
                    start,
                    before,
                    t,
                    list[k],
                )
        }),
{
    let start = tail_start(sb, d);
    let bs = sb.block_size as int;
    let a = arranged_tree(root);
    let c0 = empty_tail(start);
    let (n, c1) = settled_tree(sb, d, root)->Ok_0;
    let list = preorder(n);
    let fresh = c1.rewritten;
    ceil_div_covers(d.len() as int, bs);
    vstd::arithmetic::div_mod::lemma_mod_multiples_basic(ceil_div(d.len() as int, bs), bs);
    assert(in_step(c0, start, bs));
    settled_files_are_created(c0, sb, d, start, a.children, a.nid);
    assert forall|i: int| 0 <= i < c1.rewritten.len() implies has_cause(
        sb,
        d,
        start,
        before,
        fresh,
        c1,
        #[trigger] c1.rewritten[i],
        list,
    ) by {
        assert(fresh.contains(c1.rewritten[i]));
    }
    assert(is_listed(list, list));
    let c2 = walked(Walk::Content, c1, sb, d, before, n)->Ok_0;
    walks_are_done(Walk::Content, c1, sb, d, start, before, fresh, n, list);
    let c3 = walked(Walk::Directories, c2, sb, d, before, n)->Ok_0;
    walks_are_done(Walk::Directories, c2, sb, d, start, before, fresh, n, list);
    let t = walked(Walk::Owners, c3, sb, d, before, n)->Ok_0;
    walks_are_done(Walk::Owners, c3, sb, d, start, before, fresh, n, list);
    growth_adds_up(c1, c2, c3);
    growth_adds_up(c1, c3, t);
    growth_adds_up(c2, c3, t);
    (c2, c3)
}

proof fn created_is_provided(
    sb: Superblock,
    d: Seq<u8>,
    start: int,
    c: TailView,
    t: TailView,
    n: NodeView,
    k: int,
)
    requires
        grew(c, t),
        all_created(sb, d, start, c, 0, all_preorder(n.children)),
        own_numbers(preorder(n)),
        0 <= k < preorder(n).len(),
        c.rewritten.contains(preorder(n)[k].nid),
    ensures
        created_there(sb, d, start, t, preorder(n)[k]),
{
    let list = preorder(n);
    let nid = list[k].nid;
    let kids = all_preorder(n.children);
    let i = choose|i: int| 0 <= i < c.rewritten.len() && c.rewritten[i] == nid;
    assert(created_among(sb, d, start, c, c.rewritten[i], kids));
    created_among_more(sb, d, start, c, t, nid, kids, list, 1);
    let q = choose|q: int|
        0 <= q < list.len() && (#[trigger] list[q]).nid == nid && created_there(
            sb,
            d,
            start,
            t,
            list[q],
        );
    same_number(list, q, k);
}

/// The tail of an edit holds what every node of the tree needs.
pub proof fn edits_are_provided(
    sb: Superblock,
    d: Seq<u8>,
    root: NodeView,
    before: Seq<DirNamesView>,
    k: int,
)
    requires
        has_whole_slots(sb),
        overlay_tail(sb, d, arranged_tree(root), before, tail_start(sb, d)) is Ok,
        settled_tree(sb, d, root) matches Ok((n, c)) && own_numbers(preorder(n)) && 0 <= k
            < preorder(n).len(),
    ensures
        ({
            let (n, c) = settled_tree(sb, d, root)->Ok_0;
            let t = edit_tail(sb, d, root, before);
            &&& provided(sb, d, before, c.rewritten, t, preorder(n)[k])
            &&& in_step(t, tail_start(sb, d), sb.block_size as int)
        }),
{
    let start = tail_start(sb, d);
    let (n, c1) = settled_tree(sb, d, root)->Ok_0;
    let list = preorder(n);
    let m = list[k];
    let fresh = c1.rewritten;
    let t = edit_tail(sb, d, root, before);
    let (c2, c3) = walks_of_an_edit(sb, d, root, before);
    assert(is_done(Walk::Content, sb, d, start, before, c2, list[k]));
    if fresh.contains(m.nid) {
        created_is_provided(sb, d, start, c1, t, n, k);
    }
    if m.nid != 0 && !fresh.contains(m.nid) && m.content_changed && !m.is_dir() {
        cause_of_replaced(sb, d, start, before, fresh, c2, list, k);
        inodes_stay_in_the_plan(sb, d, start, c2, t, m);
    }
    if m.nid != 0 && names_changed(before, m) {
        inodes_stay_in_the_plan(sb, d, start, c3, t, m);
    }
    if m.nid != 0 && !fresh.contains(m.nid) && m.modified && !m.content_changed && !names_changed(
        before,
        m,
    ) {
        if c3.rewritten.contains(m.nid) {
            no_cause(sb, d, start, before, fresh, c3, list, k);
        }
    }
}

proof fn no_cause(
    sb: Superblock,
    d: Seq<u8>,
    start: int,
    before: Seq<DirNamesView>,
    fresh: Seq<u64>,
    c: TailView,
    list: Seq<NodeView>,
    k: int,
)
    requires
        own_numbers(list),
        0 <= k < list.len(),
        all_have_causes(sb, d, start, before, fresh, c, list),
        !fresh.contains(list[k].nid),
        !names_changed(before, list[k]),
        !list[k].content_changed,
    ensures
        !c.rewritten.contains(list[k].nid),
{
    let nid = list[k].nid;
    if c.rewritten.contains(nid) {
        let i = choose|i: int| 0 <= i < c.rewritten.len() && c.rewritten[i] == nid;
        assert(has_cause(sb, d, start, before, fresh, c, c.rewritten[i], list));
        let q = choose|q: int| #[trigger] is_cause(sb, d, start, before, c, nid, list, q);
        same_number(list, q, k);
    }
}

proof fn same_number(list: Seq<NodeView>, i: int, j: int)
    requires
        own_numbers(list),
        0 <= i < list.len(),
        0 <= j < list.len(),
        list[i].nid == list[j].nid,
    ensures
        i == j,
{
    if i < j {
        assert(list[i].nid != list[j].nid);
    } else if j < i {
        assert(list[j].nid != list[i].nid);
    }
}

proof fn cause_of_replaced(
    sb: Superblock,
    d: Seq<u8>,
    start: int,
    before: Seq<DirNamesView>,
    fresh: Seq<u64>,
    c: TailView,
    list: Seq<NodeView>,
    k: int,
)
    requires
        own_numbers(list),
        0 <= k < list.len(),
        all_have_causes(sb, d, start, before, fresh, c, list),
        c.rewritten.contains(list[k].nid),
        !fresh.contains(list[k].nid),
        !names_changed(before, list[k]),
    ensures
        replaced_there(sb, d, start, c, list[k]),
{
    let nid = list[k].nid;
    let i = choose|i: int| 0 <= i < c.rewritten.len() && c.rewritten[i] == nid;
    assert(has_cause(sb, d, start, before, fresh, c, c.rewritten[i], list));
    let q = choose|q: int| #[trigger] is_cause(sb, d, start, before, c, nid, list, q);
    same_number(list, q, k);
}

} // verus!
