//! EROFS images that were edited in their place: what is read of them.
use super::dir_laws::{directories_read_back, item_views};
use super::erofs_laws::bodies_read_back;
use super::fresh_laws::holds;
use super::layout::{directory_content, items_of, packed_items};
use super::node::{preorder, NodeView};
use super::overlay::{
    area_count, arranged_tree, overlay_plan, super_patches, DirNamesView, TailView,
};
use super::overlay_images::{
    blocks_have_whole_slots, content_there, created_there, creates, directory_there, edit_tail,
    edits_are_provided, has_whole_slots, in_step, in_tail, new_area, new_content, owner_there,
    replaced_there, rewrites, stands,
};
use super::overlay_laws::{
    fresh_bytes, names_changed, settled_tree, tail_start, tails_only_grow,
};
use super::overlay_numbers::{new_inodes_stand_behind, numbers_of_the_image};
use super::overlay_read_back::{
    alone, fresh_inodes_read_back, patched_owners_read_back, plain_content_reads_back,
    repatched_inodes_read_back, sound_plan, sound_plans_arrive,
};
use super::patch::{node_patches, patched, PatchView};
use super::source::content_of;
use crate::error::Fault;
use crate::fs::erofs::dir::{parsed, RawView};
use crate::fs::erofs::inode::{
    inode_of, inode_offset, xattr_area, Inode, LAYOUT_COMPRESSED_COMPACT, LAYOUT_PLAIN,
    MAX_FILE_BUFFER,
};
use crate::fs::erofs::Superblock;
use crate::math::ceil_div_covers;
use vstd::prelude::*;

verus! {

// ---------------------------------------------------------------------
// Sound edits
// ---------------------------------------------------------------------
/// An edit of an image in which no inode stands where another one or the
/// superblock is: no patch of the plan covers another one, every node that the
/// image holds has its own number, and the numbers of blocks fit into 32 bits.
pub open spec fn edit_is_sound(
    sb: Superblock,
    d: Seq<u8>,
    root: NodeView,
    before: Seq<DirNamesView>,
) -> bool {
    &&& sb.wf()
    &&& overlay_plan(sb, d, root, before) matches Ok((patches, size)) && sound_plan(patches, size)
        && size / sb.block_size as int <= u32::MAX && size <= u64::MAX
    &&& settled_tree(sb, d, root) is Ok
    &&& root.nid != 0
    &&& numbers_of_the_image(sb, d, preorder(arranged_tree(root)))
}

/// The image after an edit.
pub open spec fn after_edit(
    sb: Superblock,
    d: Seq<u8>,
    root: NodeView,
    before: Seq<DirNamesView>,
) -> Seq<u8> {
    let (patches, size) = overlay_plan(sb, d, root, before)->Ok_0;
    patched(d, patches, size)
}

/// An edit never makes an image shorter.
pub proof fn edits_do_not_shorten(
    sb: Superblock,
    d: Seq<u8>,
    root: NodeView,
    before: Seq<DirNamesView>,
)
    requires
        0 < sb.block_size,
        overlay_plan(sb, d, root, before) is Ok,
    ensures
        d.len() <= after_edit(sb, d, root, before).len(),
{
    ceil_div_covers(d.len() as int, sb.block_size as int);
    tails_only_grow(sb, d, root, before);
}

/// The nodes of the tree after an edit.
pub open spec fn edited_nodes(sb: Superblock, d: Seq<u8>, root: NodeView) -> Seq<NodeView> {
    preorder(settled_tree(sb, d, root)->Ok_0.0)
}

/// The numbers of the new inodes.
pub open spec fn fresh_numbers(sb: Superblock, d: Seq<u8>, root: NodeView) -> Seq<u64> {
    settled_tree(sb, d, root)->Ok_0.1.rewritten
}

/// The patches of a plan arrive: those of inodes, and the tail.
pub proof fn plans_arrive(
    d: Seq<u8>,
    body: Seq<PatchView>,
    middle: Seq<PatchView>,
    start: int,
    tail: Seq<u8>,
    size: int,
)
    requires
        sound_plan(body + middle + seq![PatchView { at: start, data: tail }], size),
    ensures
        ({
            let e = patched(d, body + middle + seq![PatchView { at: start, data: tail }], size);
            &&& forall|j: int|
                0 <= j < body.len() ==> holds(e, (#[trigger] body[j]).at, body[j].data)
            &&& holds(e, start, tail)
            &&& e.len() == size
        }),
{
    let patches = body + middle + seq![PatchView { at: start, data: tail }];
    assert forall|j: int| 0 <= j < body.len() implies holds(
        patched(d, patches, size),
        (#[trigger] body[j]).at,
        body[j].data,
    ) by {
        assert(patches[j] == body[j]);
        sound_plans_arrive(d, patches, size, j);
    }
    let last = patches.len() - 1;
    assert(patches[last] == PatchView { at: start, data: tail });
    sound_plans_arrive(d, patches, size, last);
    assert(0 <= patches[last].at);
}

/// What an edited image holds.
proof fn edits_arrive(sb: Superblock, d: Seq<u8>, root: NodeView, before: Seq<DirNamesView>)
    requires
        edit_is_sound(sb, d, root, before),
    ensures
        ({
            let e = after_edit(sb, d, root, before);
            let t = edit_tail(sb, d, root, before);
            &&& forall|j: int|
                0 <= j < t.patches.len() ==> holds(
                    e,
                    (#[trigger] t.patches[j]).at,
                    t.patches[j].data,
                )
            &&& holds(e, tail_start(sb, d), t.tail)
            &&& e.len() == t.cursor
            &&& e.len() <= 0x10_0000_0000_0000
            &&& e.len() as int / sb.block_size as int <= u32::MAX
            &&& has_whole_slots(sb)
        }),
{
    blocks_have_whole_slots(sb);
    let t = edit_tail(sb, d, root, before);
    let sp = super_patches(
        sb,
        (sb.inodes + t.new_inodes) as u64,
        (t.cursor / sb.block_size as int) as u32,
    );
    plans_arrive(d, t.patches, sp, tail_start(sb, d), t.tail, t.cursor);
    few_blocks(t.cursor, sb.block_size as int);
}

/// An image with so few blocks is no longer than this.
pub proof fn few_blocks(size: int, block_size: int)
    requires
        0 <= size,
        0 < block_size <= 0x10_0000,
        size / block_size <= u32::MAX,
    ensures
        size <= 0x10_0000_0000_0000,
{
    let q = size / block_size;
    vstd::arithmetic::div_mod::lemma_fundamental_div_mod(size, block_size);
    assert(block_size * q <= 0xffff_ffff * 0x10_0000) by (nonlinear_arith)
        requires
            0 < block_size <= 0x10_0000,
            0 <= q <= 0xffff_ffff,
    ;
}

/// Content that stands in the tail stands in the image.
pub proof fn standing_content_is_read(
    e: Seq<u8>,
    t: TailView,
    start: int,
    block_size: int,
    data: Seq<u8>,
    raw: u32,
    o: int,
)
    requires
        0 < block_size,
        in_step(t, start, block_size),
        e.len() == t.cursor,
        e.len() as int / block_size <= u32::MAX,
        holds(e, start, t.tail),
        stands(t, start, block_size, data, raw, o),
    ensures
        holds(e, raw * block_size, data),
{
    let at = start + o;
    let b = at / block_size;
    vstd::arithmetic::div_mod::lemma_fundamental_div_mod(at, block_size);
    vstd::arithmetic::div_mod::lemma_div_is_ordered(at, e.len() as int, block_size);
    vstd::arithmetic::div_mod::lemma_div_pos_is_pos(at, block_size);
    assert(raw == b);
    assert(raw * block_size == at) by (nonlinear_arith)
        requires
            raw == b,
            at == block_size * b + 0,
    ;
    assert(e.subrange(at, at + data.len()) =~= data) by {
        assert forall|i: int| 0 <= i < data.len() implies e[at + i] == #[trigger] data[i] by {
            assert(t.tail.subrange(o, o + data.len())[i] == data[i]);
            assert(e.subrange(start, start + t.tail.len())[o + i] == t.tail[o + i]);
        }
    }
}

/// Content of the tail stands in the image.
proof fn tails_are_read(
    e: Seq<u8>,
    t: TailView,
    start: int,
    block_size: int,
    data: Seq<u8>,
    raw: u32,
    size: u64,
)
    requires
        0 < block_size,
        in_step(t, start, block_size),
        e.len() == t.cursor,
        e.len() as int / block_size <= u32::MAX,
        holds(e, start, t.tail),
        in_tail(t, start, block_size, data, raw, size),
        data.len() > 0,
    ensures
        holds(e, raw * block_size, data),
{
    let o = choose|o: int| #[trigger] stands(t, start, block_size, data, raw, o);
    standing_content_is_read(e, t, start, block_size, data, raw, o);
}

// ---------------------------------------------------------------------
// Files
// ---------------------------------------------------------------------
/// The node reads back from the image `e` with its mode and its owner, as a
/// plain file: with the content that the edit brought, where that can be read
/// into memory, or in the blocks that it shares.
pub open spec fn reads_as_edited(
    sb: Superblock,
    d: Seq<u8>,
    e: Seq<u8>,
    n: NodeView,
    limit: int,
) -> bool {
    inode_of(sb, e, n.nid) matches Ok(fi) && {
        &&& fi.mode == n.mode
        &&& fi.uid == n.uid
        &&& fi.gid == n.gid
        &&& fi.layout == LAYOUT_PLAIN
        &&& fi.nid == n.nid
        &&& match new_content(sb, d, n) {
            Some(data) => data.len() <= limit && data.len() <= usize::MAX ==> content_of(
                sb,
                e,
                n.nid,
            ) == Ok::<Seq<u8>, Fault>(data),
            None => n.data_size <= limit ==> fi.raw_blkaddr == n.raw_block && fi.size
                == n.data_size,
        }
    }
}

/// The attributes of an inode are where they were.
pub open spec fn attributes_stay(sb: Superblock, d: Seq<u8>, e: Seq<u8>, nid: u64) -> bool {
    inode_of(sb, e, nid) matches Ok(a) && inode_of(sb, d, nid) matches Ok(b) && a.nid == b.nid
        && a.inode_size == b.inode_size && a.xattr_size == b.xattr_size
}

/// A file whose content was replaced reads back with the new content, mode
/// and owner.
pub proof fn replaced_files_read_back(
    sb: Superblock,
    d: Seq<u8>,
    root: NodeView,
    before: Seq<DirNamesView>,
    k: int,
)
    requires
        edit_is_sound(sb, d, root, before),
        0 <= k < edited_nodes(sb, d, root).len(),
        ({
            let m = edited_nodes(sb, d, root)[k];
            &&& m.nid != 0
            &&& m.content_changed
            &&& !m.is_dir()
            &&& !fresh_numbers(sb, d, root).contains(m.nid)
            &&& inode_of(sb, d, m.nid) is Ok
        }),
    ensures
        reads_as_edited(
            sb,
            d,
            after_edit(sb, d, root, before),
            edited_nodes(sb, d, root)[k],
            MAX_FILE_BUFFER as int,
        ),
        attributes_stay(sb, d, after_edit(sb, d, root, before), edited_nodes(sb, d, root)[k].nid),
{
    let bs = sb.block_size as int;
    let start = tail_start(sb, d);
    let m = edited_nodes(sb, d, root)[k];
    let e = after_edit(sb, d, root, before);
    let t = edit_tail(sb, d, root, before);
    edits_arrive(sb, d, root, before);
    new_inodes_stand_behind(sb, d, root);
    edits_are_provided(sb, d, root, before, k);
    ceil_div_covers(d.len() as int, bs);
    assert(replaced_there(sb, d, start, t, m));
    reveal(replaced_there);
    let (j, size, raw) = choose|j: int, size: u64, raw: u32|
        0 <= j < t.patches.len() && #[trigger] rewrites(sb, d, t.patches[j], m, size, raw)
            && content_there(sb, d, start, t, m, raw, size);
    let w = t.patches[j];
    let x = d.subrange(w.at, w.at + 64);
    repatched_inodes_read_back(sb, d, e, x, m, size, raw, w.data);
    let fi = inode_of(sb, e, m.nid)->Ok_0;
    if let Some(data) = new_content(sb, d, m) {
        if data.len() <= MAX_FILE_BUFFER && data.len() <= usize::MAX {
            if data.len() > 0 {
                tails_are_read(e, t, start, bs, data, raw, size);
            }
            plain_content_reads_back(sb, e, m.nid, fi, data);
        }
    }
}

/// A fresh inode stands in the image.
pub proof fn created_inodes_stand(
    sb: Superblock,
    e: Seq<u8>,
    t: TailView,
    start: int,
    m: NodeView,
    size: u64,
    raw: u32,
    area: Seq<u8>,
    o: int,
)
    requires
        in_step(t, start, sb.block_size as int),
        e.len() == t.cursor,
        holds(e, start, t.tail),
        creates(sb, start, t, m, size, raw, area, o),
    ensures
        holds(e, inode_offset(sb, m.nid), fresh_bytes(m, m.nid, size as u32, raw, area)),
        start <= inode_offset(sb, m.nid),
        inode_offset(sb, m.nid) + 64 <= e.len(),
{
    let at = start + o;
    let x = fresh_bytes(m, m.nid, size as u32, raw, area);
    assert(e.subrange(at, at + x.len()) =~= x) by {
        assert forall|i: int| 0 <= i < x.len() implies e[at + i] == #[trigger] x[i] by {
            assert(t.tail.subrange(o, o + x.len())[i] == x[i]);
            assert(e.subrange(start, start + t.tail.len())[o + i] == t.tail[o + i]);
        }
    }
}

/// A fresh inode of the plan, and the content of it, are read.
proof fn created_files_are_read(
    sb: Superblock,
    d: Seq<u8>,
    e: Seq<u8>,
    t: TailView,
    start: int,
    m: NodeView,
    size: u64,
    raw: u32,
    o: int,
)
    requires
        0 < sb.block_size,
        in_step(t, start, sb.block_size as int),
        e.len() == t.cursor,
        e.len() <= 0x10_0000_0000_0000,
        e.len() as int / sb.block_size as int <= u32::MAX,
        holds(e, start, t.tail),
        creates(sb, start, t, m, size, raw, new_area(sb, d, m), o),
        content_there(sb, d, start, t, m, raw, size),
    ensures
        reads_as_edited(sb, d, e, m, u32::MAX as int),
        inode_of(sb, e, m.nid)->Ok_0.inode_size == m.body(),
        inode_of(sb, e, m.nid)->Ok_0.xattr_size == xattr_area(
            area_count(new_area(sb, d, m)) as int,
        ),
{
    let area = new_area(sb, d, m);
    created_inodes_stand(sb, e, t, start, m, size, raw, area, o);
    fresh_inodes_read_back(sb, e, m.nid, m, size as u32, raw, area);
    let fi = inode_of(sb, e, m.nid)->Ok_0;
    if let Some(data) = new_content(sb, d, m) {
        if data.len() <= u32::MAX && data.len() <= usize::MAX {
            if data.len() > 0 {
                tails_are_read(e, t, start, sb.block_size as int, data, raw, size);
            }
            plain_content_reads_back(sb, e, m.nid, fi, data);
        }
    }
}

/// A new file reads back with its content, mode and owner, and has the
/// attributes of the file that it is a copy of. Its inode stands behind
/// everything that the image held.
pub proof fn new_files_read_back(
    sb: Superblock,
    d: Seq<u8>,
    root: NodeView,
    before: Seq<DirNamesView>,
    k: int,
)
    requires
        edit_is_sound(sb, d, root, before),
        0 <= k < edited_nodes(sb, d, root).len(),
        fresh_numbers(sb, d, root).contains(edited_nodes(sb, d, root)[k].nid),
    ensures
        ({
            let m = edited_nodes(sb, d, root)[k];
            let e = after_edit(sb, d, root, before);
            &&& d.len() <= inode_offset(sb, m.nid)
            &&& inode_offset(sb, m.nid) + 64 <= e.len() <= 0x10_0000_0000_0000
            &&& reads_as_edited(sb, d, e, m, u32::MAX as int)
            &&& holds(e, inode_offset(sb, m.nid) + m.body(), new_area(sb, d, m))
            &&& inode_of(sb, e, m.nid)->Ok_0.inode_size == m.body()
            &&& inode_of(sb, e, m.nid)->Ok_0.xattr_size == xattr_area(
                area_count(new_area(sb, d, m)) as int,
            )
        }),
{
    let bs = sb.block_size as int;
    let start = tail_start(sb, d);
    let m = edited_nodes(sb, d, root)[k];
    let e = after_edit(sb, d, root, before);
    let t = edit_tail(sb, d, root, before);
    let area = new_area(sb, d, m);
    edits_arrive(sb, d, root, before);
    new_inodes_stand_behind(sb, d, root);
    edits_are_provided(sb, d, root, before, k);
    ceil_div_covers(d.len() as int, bs);
    assert(created_there(sb, d, start, t, m));
    reveal(created_there);
    let (o, size, raw) = choose|o: int, size: u64, raw: u32| #[trigger]
        creates(sb, start, t, m, size, raw, area, o) && content_there(
            sb,
            d,
            start,
            t,
            m,
            raw,
            size,
        );
    created_files_are_read(sb, d, e, t, start, m, size, raw, o);
    created_inodes_stand(sb, e, t, start, m, size, raw, area, o);
    let w = PatchView {
        at: inode_offset(sb, m.nid),
        data: fresh_bytes(m, m.nid, size as u32, raw, area),
    };
    created_area(w, m, size, raw, area);
    areas_follow(e, w, m.body(), area);
}

proof fn created_area(w: PatchView, m: NodeView, size: u64, raw: u32, area: Seq<u8>)
    requires
        w.data == fresh_bytes(m, m.nid, size as u32, raw, area),
    ensures
        w.data.len() == m.body() + area.len(),
        w.data.subrange(m.body(), w.data.len() as int) == area,
{
    bodies_read_back(m, 0, area_count(area), size as u32, raw);
    assert(NodeView { nid: m.nid, ..m } == m);
    assert(w.data.subrange(m.body(), w.data.len() as int) =~= area);
}

proof fn areas_follow(e: Seq<u8>, w: PatchView, body: int, area: Seq<u8>)
    requires
        holds(e, w.at, w.data),
        0 <= body,
        w.data.len() == body + area.len(),
        w.data.subrange(body, w.data.len() as int) == area,
    ensures
        holds(e, w.at + body, area),
{
    assert(e.subrange(w.at + body, w.at + body + area.len()) =~= area) by {
        assert forall|i: int| 0 <= i < area.len() implies e[w.at + body + i] == #[trigger] area[i] by {
            assert(w.data.subrange(body, w.data.len() as int)[i] == area[i]);
            assert(e.subrange(w.at, w.at + w.data.len())[body + i] == w.data[body + i]);
        }
    }
}

// ---------------------------------------------------------------------
// Directories
// ---------------------------------------------------------------------
/// A directory whose names changed reads back with its mode, its owner and
/// the entries for all of its children.
pub proof fn edited_directories_read_back(
    sb: Superblock,
    d: Seq<u8>,
    root: NodeView,
    before: Seq<DirNamesView>,
    k: int,
)
    requires
        edit_is_sound(sb, d, root, before),
        sb.block_size <= 65536,
        0 <= k < edited_nodes(sb, d, root).len(),
        ({
            let m = edited_nodes(sb, d, root)[k];
            &&& m.nid != 0
            &&& names_changed(before, m)
            &&& inode_of(sb, d, m.nid) is Ok
            &&& directory_content(m, sb.block_size as int).len() <= MAX_FILE_BUFFER
            &&& directory_content(m, sb.block_size as int).len() <= usize::MAX
            &&& packed_items(items_of(m), 0, sb.block_size as int) is Some
            &&& m.parent_nid != 0
            &&& forall|i: int|
                0 <= i < m.children.len() ==> {
                    &&& (#[trigger] m.children[i]).nid != 0
                    &&& m.children[i].name.len() > 0
                    &&& !m.children[i].name.contains('\0')
                }
        }),
    ensures
        ({
            let m = edited_nodes(sb, d, root)[k];
            let e = after_edit(sb, d, root, before);
            &&& inode_of(sb, e, m.nid) matches Ok(fi) && fi.mode == m.mode && fi.uid == m.uid
                && fi.gid == m.gid && fi.size > 0
            &&& attributes_stay(sb, d, e, m.nid)
            &&& content_of(sb, e, m.nid) matches Ok(data) && parsed(data, sb.block_size as int)
                == Ok::<Seq<RawView>, Fault>(item_views(items_of(m)))
        }),
{
    let bs = sb.block_size as int;
    let start = tail_start(sb, d);
    let m = edited_nodes(sb, d, root)[k];
    let e = after_edit(sb, d, root, before);
    let t = edit_tail(sb, d, root, before);
    let data = directory_content(m, bs);
    edits_arrive(sb, d, root, before);
    new_inodes_stand_behind(sb, d, root);
    edits_are_provided(sb, d, root, before, k);
    ceil_div_covers(d.len() as int, bs);
    assert(directory_there(sb, d, start, t, m));
    reveal(directory_there);
    let (j, size, raw) = choose|j: int, size: u64, raw: u32|
        0 <= j < t.patches.len() && #[trigger] rewrites(sb, d, t.patches[j], m, size, raw)
            && in_tail(t, start, bs, data, raw, size);
    let w = t.patches[j];
    let x = d.subrange(w.at, w.at + 64);
    repatched_inodes_read_back(sb, d, e, x, m, size, raw, w.data);
    let fi = inode_of(sb, e, m.nid)->Ok_0;
    if data.len() > 0 {
        tails_are_read(e, t, start, bs, data, raw, size);
    }
    plain_content_reads_back(sb, e, m.nid, fi, data);
    directories_read_back(m, bs);
}

// ---------------------------------------------------------------------
// Mode and owner
// ---------------------------------------------------------------------
/// Only the patches of its own mode and owner cover bytes of the inode of a
/// node: of its body or of its map header.
pub open spec fn only_owners(
    sb: Superblock,
    d: Seq<u8>,
    patches: Seq<PatchView>,
    n: NodeView,
    fi: Inode,
) -> bool {
    let at = inode_offset(sb, n.nid);
    forall|j: int, p: int|
        0 <= j < patches.len() && #[trigger] patches[j].covers(p) && (at <= p < at + fi.inode_size
            || (fi.layout == LAYOUT_COMPRESSED_COMPACT && fi.data_offset <= p < fi.data_offset
            + 8)) ==> node_patches(sb, d, n)->Ok_0.contains(patches[j])
}

/// In a sound plan the patches of mode and owner stand alone.
pub proof fn own_patches_are_alone(
    sb: Superblock,
    d: Seq<u8>,
    patches: Seq<PatchView>,
    size: int,
    k: int,
    n: NodeView,
    fi: Inode,
)
    requires
        sound_plan(patches, size),
        node_patches(sb, d, n) is Ok,
        0 <= k,
        k + 3 <= patches.len(),
        node_patches(sb, d, n)->Ok_0 == patches.subrange(k, k + 3),
        only_owners(sb, d, patches, n, fi),
    ensures
        alone(patches, k, inode_offset(sb, n.nid), fi),
{
    let at = inode_offset(sb, n.nid);
    let w = node_patches(sb, d, n)->Ok_0;
    assert forall|j: int, p: int|
        0 <= j < patches.len() && !(k <= j < k + 3) && #[trigger] patches[j].covers(p) implies !(at
        <= p < at + fi.inode_size) && !(fi.layout == LAYOUT_COMPRESSED_COMPACT && fi.data_offset
        <= p < fi.data_offset + 8) by {
        if at <= p < at + fi.inode_size || (fi.layout == LAYOUT_COMPRESSED_COMPACT
            && fi.data_offset <= p < fi.data_offset + 8) {
            let i = choose|i: int| 0 <= i < w.len() && w[i] == patches[j];
            assert(w[i] == patches[k + i]);
            assert(patches[k + i].covers(p));
            if k + i < j {
                assert(!(patches[k + i].covers(p) && patches[j].covers(p)));
            } else {
                assert(!(patches[j].covers(p) && patches[k + i].covers(p)));
            }
        }
    }
}

/// Where the patches of mode and owner stand in a plan.
proof fn own_patches_in_the_plan(
    sb: Superblock,
    d: Seq<u8>,
    t: TailView,
    rest: Seq<PatchView>,
    m: NodeView,
) -> (j: int)
    requires
        owner_there(sb, d, t, m),
    ensures
        0 <= j,
        j + 3 <= (t.patches + rest).len(),
        (t.patches + rest).subrange(j, j + 3) == node_patches(sb, d, m)->Ok_0,
{
    let w = node_patches(sb, d, m)->Ok_0;
    let j = choose|j: int|
        0 <= j && j + w.len() <= t.patches.len() && #[trigger] t.patches.subrange(
            j,
            (j + w.len()) as int,
        ) == w;
    assert(w.len() == 3);
    assert((t.patches + rest).subrange(j, j + 3) =~= w) by {
        assert forall|i: int| 0 <= i < 3 implies (t.patches + rest)[j + i] == #[trigger] w[i] by {
            assert(t.patches.subrange(j, (j + w.len()) as int)[i] == w[i]);
        }
    }
    j
}

/// A node of which nothing but the mode and the owner changed reads back with
/// them, and with everything else that it had.
pub proof fn edited_owners_read_back(
    sb: Superblock,
    d: Seq<u8>,
    root: NodeView,
    before: Seq<DirNamesView>,
    k: int,
)
    requires
        edit_is_sound(sb, d, root, before),
        0 <= k < edited_nodes(sb, d, root).len(),
        ({
            let m = edited_nodes(sb, d, root)[k];
            &&& m.nid != 0
            &&& m.modified
            &&& !m.content_changed
            &&& !names_changed(before, m)
            &&& !fresh_numbers(sb, d, root).contains(m.nid)
            &&& inode_of(sb, d, m.nid) matches Ok(fi) && only_owners(
                sb,
                d,
                overlay_plan(sb, d, root, before)->Ok_0.0,
                m,
                fi,
            )
        }),
    ensures
        ({
            let m = edited_nodes(sb, d, root)[k];
            let fi = inode_of(sb, d, m.nid)->Ok_0;
            inode_of(sb, after_edit(sb, d, root, before), m.nid) == Ok::<Inode, Fault>(
                Inode {
                    mode: m.mode,
                    uid: m.uid,
                    gid: m.gid,
                    ..fi
                },
            )
        }),
{
    let bs = sb.block_size as int;
    let m = edited_nodes(sb, d, root)[k];
    let t = edit_tail(sb, d, root, before);
    let (patches, size) = overlay_plan(sb, d, root, before)->Ok_0;
    let fi = inode_of(sb, d, m.nid)->Ok_0;
    blocks_have_whole_slots(sb);
    new_inodes_stand_behind(sb, d, root);
    edits_are_provided(sb, d, root, before, k);
    ceil_div_covers(d.len() as int, bs);
    assert(owner_there(sb, d, t, m));
    let sp = super_patches(
        sb,
        (sb.inodes + t.new_inodes) as u64,
        (t.cursor / sb.block_size as int) as u32,
    );
    let rest = sp + seq![PatchView { at: tail_start(sb, d), data: t.tail }];
    assert(patches =~= t.patches + rest);
    let j = own_patches_in_the_plan(sb, d, t, rest, m);
    own_patches_are_alone(sb, d, patches, size, j, m, fi);
    patched_owners_read_back(sb, d, patches, size, j, m);
}

} // verus!
