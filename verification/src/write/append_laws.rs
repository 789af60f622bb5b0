//! EROFS images to which one file was appended, or of which one was replaced:
//! every other byte stays, and what was written reads back.
use super::append::{
    any_new, append_plan, append_tail, dir_in_place, first_modified, first_new, node_numbered,
    with_content, with_directory, with_new_content, with_new_file,
};
use super::dir_laws::{directories_read_back, item_views};
use super::edited_images::{
    attributes_stay, created_inodes_stand, few_blocks, plans_arrive, standing_content_is_read,
};
use super::fresh_laws::holds;
use super::layout::{directory_content, items_of, packed_items};
use super::node::NodeView;
use super::overlay::{
    arranged_tree, empty_tail, fresh_number, super_patches, with_fresh, TailView,
};
use super::overlay_images::{
    blocks_have_whole_slots, creates, fresh_numbers_stand, has_whole_slots, in_step,
    repatch_is_there, rewrites, stands, steps_stay_in_step,
};
use super::overlay_laws::{
    appending_grows, fresh_bytes, fresh_inodes_grow, grew, growth_adds_up, lies, plans_spare,
    repatching_grows, super_byte, tail_start,
};
use super::overlay_read_back::{
    fresh_inodes_read_back, plain_content_reads_back, repatched_inodes_read_back,
    sound_plan,
};
use super::patch::{patched, PatchView};
use super::source::content_of;
use crate::error::Fault;
use crate::fs::erofs::dir::{parsed, RawView};
use crate::fs::erofs::inode::{inode_of, inode_offset, MAX_FILE_BUFFER};
use crate::fs::erofs::Superblock;
use crate::math::{ceil_div, ceil_div_covers};
use vstd::prelude::*;

verus! {

// ---------------------------------------------------------------------
// What is written
// ---------------------------------------------------------------------
/// What appending does to a tree: a new file in a directory, or a file with
/// new content.
pub enum Change {
    New { parent: NodeView, file: NodeView },
    Replaced { file: NodeView },
}

/// The change that appending makes of a tree.
pub open spec fn change_of(sb: Superblock, d: Seq<u8>, root: NodeView) -> Option<Change> {
    match first_new(arranged_tree(root), fresh_number(sb, tail_start(sb, d))) {
        Some((t, file)) => match node_numbered(t, file.parent_nid) {
            None => None,
            Some(parent) => Some(Change::New { parent, file }),
        },
        None => match first_modified(arranged_tree(root)) {
            None => None,
            Some(file) => Some(Change::Replaced { file }),
        },
    }
}

/// A byte of the image that appending writes to.
pub open spec fn appended_byte(sb: Superblock, d: Seq<u8>, root: NodeView, p: int) -> bool {
    super_byte(p) || match change_of(sb, d, root) {
        None => false,
        Some(Change::Replaced { file }) => inode_offset(sb, file.nid) <= p < inode_offset(
            sb,
            file.nid,
        ) + 64,
        Some(Change::New { parent, file }) => if parent.layout == 0 {
            parent.raw_block * sb.block_size <= p < parent.raw_block * sb.block_size
                + parent.data().len()
        } else {
            inode_offset(sb, parent.nid) <= p < inode_offset(sb, parent.nid) + 64
        },
    }
}

/// The tail that appending makes.
pub open spec fn appending_tail(sb: Superblock, d: Seq<u8>, root: NodeView) -> TailView {
    append_tail(sb, d, arranged_tree(root), tail_start(sb, d))->Ok_0.0
}

/// The image after appending.
pub open spec fn appended_to(sb: Superblock, d: Seq<u8>, root: NodeView) -> Seq<u8> {
    let (patches, size) = append_plan(sb, d, root)->Ok_0;
    patched(d, patches, size)
}

/// The content of a file stands behind the end.
proof fn content_is_appended(c: TailView, sb: Superblock, start: int, data: Seq<u8>)
    requires
        0 < sb.block_size,
        in_step(c, start, sb.block_size as int),
        with_content(c, sb, data) is Ok,
    ensures
        ({
            let (t, raw) = with_content(c, sb, data)->Ok_0;
            &&& grew(c, t)
            &&& in_step(t, start, sb.block_size as int)
            &&& t.patches == c.patches
            &&& stands(t, start, sb.block_size as int, data, raw, c.tail.len() as int)
        }),
{
    let bs = sb.block_size as int;
    appending_grows(c, bs, data);
    let (t, raw) = with_content(c, sb, data)->Ok_0;
    steps_stay_in_step(c, t, start, bs);
}

proof fn content_goes_on_standing(
    c: TailView,
    t: TailView,
    start: int,
    block_size: int,
    data: Seq<u8>,
    raw: u32,
    o: int,
)
    requires
        grew(c, t),
        stands(c, start, block_size, data, raw, o),
    ensures
        stands(t, start, block_size, data, raw, o),
{
    assert(t.tail.subrange(o, o + data.len()) =~= data) by {
        assert forall|i: int| 0 <= i < data.len() implies t.tail[o + i] == #[trigger] data[i] by {
            assert(c.tail.subrange(o, o + data.len())[i] == data[i]);
        }
    }
}

// ---------------------------------------------------------------------
// Directories
// ---------------------------------------------------------------------
/// What appending does to the directory of a new file.
pub open spec fn directory_written(
    sb: Superblock,
    d: Seq<u8>,
    start: int,
    t: TailView,
    parent: NodeView,
) -> bool {
    let bs = sb.block_size as int;
    let data = directory_content(parent, bs);
    if parent.layout == 0 {
        &&& data.len() <= parent.data().len()
        &&& t.patches.len() > 0
        &&& t.patches[0] == PatchView { at: parent.raw_block * bs, data }
    } else {
        &&& t.patches.len() > 0
        &&& exists|raw: u32, o: int| #[trigger] rewrites(
            sb,
            d,
            t.patches[0],
            parent,
            data.len() as u64,
            raw,
        ) && #[trigger] stands(t, start, bs, data, raw, o)
    }
}

proof fn directories_are_written(c: TailView, sb: Superblock, d: Seq<u8>, start: int, parent: NodeView)
    requires
        0 < sb.block_size,
        in_step(c, start, sb.block_size as int),
        c.patches.len() == 0,
        with_directory(c, sb, d, parent) is Ok,
    ensures
        ({
            let t = with_directory(c, sb, d, parent)->Ok_0;
            &&& grew(c, t)
            &&& in_step(t, start, sb.block_size as int)
            &&& directory_written(sb, d, start, t, parent)
            &&& forall|j: int, p: int|
                0 <= j < t.patches.len() && #[trigger] t.patches[j].covers(p)
                    ==> if parent.layout == 0 {
                    parent.raw_block * sb.block_size <= p < parent.raw_block * sb.block_size
                        + parent.data().len()
                } else {
                    inode_offset(sb, parent.nid) <= p < inode_offset(sb, parent.nid) + 64
                }
        }),
{
    let bs = sb.block_size as int;
    let data = directory_content(parent, bs);
    let t = with_directory(c, sb, d, parent)->Ok_0;
    if parent.layout == 0 {
        let w = dir_in_place(parent, data, bs);
        assert(t.patches =~= w);
        assert(w[0] == PatchView { at: parent.raw_block * bs, data });
    } else {
        content_is_appended(c, sb, start, data);
        let (c1, raw) = with_content(c, sb, data)->Ok_0;
        repatching_grows(c1, sb, d, parent, data.len() as u64, raw);
        repatch_is_there(c1, sb, d, parent, data.len() as u64, raw);
        growth_adds_up(c, c1, t);
        content_goes_on_standing(c1, t, start, bs, data, raw, c.tail.len() as int);
        assert(t.patches[0] == t.patches.last());
    }
}

// ---------------------------------------------------------------------
// Files
// ---------------------------------------------------------------------
/// A fresh inode behind the end, with the content behind that.
pub open spec fn file_written(sb: Superblock, start: int, t: TailView, file: NodeView) -> bool {
    exists|raw: u32, o: int, q: int| #[trigger]
        creates(sb, start, t, file, file.data().len() as u64, raw, Seq::empty(), o)
            && #[trigger] stands(t, start, sb.block_size as int, file.data(), raw, q)
}

proof fn files_are_written(c: TailView, sb: Superblock, start: int, file: NodeView)
    requires
        has_whole_slots(sb),
        in_step(c, start, sb.block_size as int),
        with_new_file(c, sb, file) is Ok,
        file.nid == fresh_number(sb, c.cursor),
    ensures
        ({
            let t = with_new_file(c, sb, file)->Ok_0;
            &&& grew(c, t)
            &&& in_step(t, start, sb.block_size as int)
            &&& file_written(sb, start, t, file)
            &&& t.patches == c.patches
        }),
{
    let bs = sb.block_size as int;
    let data = file.data();
    let none = Seq::<u8>::empty();
    let raw = (c.cursor / bs + 1) as u32;
    let (c1, nid) = with_fresh(c, sb, file, data.len() as u32, raw, none)->Ok_0;
    fresh_inodes_grow(c, sb, file, data.len() as u32, raw, none);
    fresh_numbers_stand(sb, c.cursor);
    steps_stay_in_step(c, c1, start, bs);
    one_block(file.body(), bs);
    let x = fresh_bytes(file, nid, data.len() as u32, raw, none);
    assert(x.len() == file.body());
    assert(c1.cursor == c.cursor + bs);
    let o = c.tail.len() as int;
    content_is_appended(c1, sb, start, data);
    let t = with_new_file(c, sb, file)->Ok_0;
    growth_adds_up(c, c1, t);
    assert(c1.cursor / bs == c.cursor / bs + 1) by {
        vstd::arithmetic::div_mod::lemma_div_plus_one(c.cursor, bs);
    }
    assert(t.tail.subrange(o, o + x.len()) =~= x) by {
        assert forall|i: int| 0 <= i < x.len() implies t.tail[o + i] == #[trigger] x[i] by {
            assert(c1.tail.subrange(o, o + x.len())[i] == x[i]);
        }
    }
    assert(creates(sb, start, t, file, data.len() as u64, raw, none, o));
    assert(stands(t, start, bs, data, raw, c1.tail.len() as int));
}

proof fn one_block(n: int, block_size: int)
    requires
        0 < n <= block_size,
    ensures
        ceil_div(n, block_size) * block_size == block_size,
{
    ceil_div_covers(n, block_size);
    let q = ceil_div(n, block_size);
    assert(q == 1) by (nonlinear_arith)
        requires
            q * block_size >= n,
            q * block_size < n + block_size,
            0 < n <= block_size,
    ;
    assert(q * block_size == block_size) by (nonlinear_arith)
        requires
            q == 1,
    ;
}

proof fn files_go_on(sb: Superblock, start: int, c: TailView, t: TailView, file: NodeView)
    requires
        grew(c, t),
        file_written(sb, start, c, file),
    ensures
        file_written(sb, start, t, file),
{
    let bs = sb.block_size as int;
    let data = file.data();
    let none = Seq::<u8>::empty();
    let (raw, o, q) = choose|raw: u32, o: int, q: int| #[trigger]
        creates(sb, start, c, file, data.len() as u64, raw, none, o) && #[trigger] stands(
            c,
            start,
            bs,
            data,
            raw,
            q,
        );
    content_goes_on_standing(c, t, start, bs, data, raw, q);
    let x = fresh_bytes(file, file.nid, (data.len() as u64) as u32, raw, none);
    assert(t.tail.subrange(o, o + x.len()) =~= x) by {
        assert forall|i: int| 0 <= i < x.len() implies t.tail[o + i] == #[trigger] x[i] by {
            assert(c.tail.subrange(o, o + x.len())[i] == x[i]);
        }
    }
    assert(creates(sb, start, t, file, data.len() as u64, raw, none, o));
}

/// The first node without a number gets the number.
proof fn first_has_the_number(n: NodeView, nid: u64)
    ensures
        first_new(n, nid) matches Some((_, x)) ==> x.nid == nid,
    decreases n,
{
    if !(n.nid == 0 && n.name != Seq::<char>::empty()) {
        any_has_the_number(n.children, nid);
    }
}

proof fn any_has_the_number(s: Seq<NodeView>, nid: u64)
    ensures
        any_new(s, nid) matches Some((_, x)) ==> x.nid == nid,
    decreases s,
{
    if s.len() > 0 {
        any_has_the_number(s.subrange(0, s.len() - 1), nid);
        first_has_the_number(s[s.len() - 1], nid);
    }
}

/// The inode of a file is written again, for the content behind the end.
pub open spec fn file_rewritten(
    sb: Superblock,
    d: Seq<u8>,
    start: int,
    t: TailView,
    file: NodeView,
) -> bool {
    t.patches.len() == 1 && exists|raw: u32, o: int| #[trigger]
        rewrites(sb, d, t.patches[0], file, file.data().len() as u64, raw) && #[trigger] stands(
            t,
            start,
            sb.block_size as int,
            file.data(),
            raw,
            o,
        )
}

proof fn files_are_rewritten(c: TailView, sb: Superblock, d: Seq<u8>, start: int, file: NodeView)
    requires
        0 < sb.block_size,
        in_step(c, start, sb.block_size as int),
        c.patches.len() == 0,
        with_new_content(c, sb, d, file) is Ok,
    ensures
        ({
            let t = with_new_content(c, sb, d, file)->Ok_0;
            &&& in_step(t, start, sb.block_size as int)
            &&& file_rewritten(sb, d, start, t, file)
            &&& lies(t.patches[0], inode_offset(sb, file.nid))
        }),
{
    let bs = sb.block_size as int;
    let data = file.data();
    content_is_appended(c, sb, start, data);
    let (c1, raw) = with_content(c, sb, data)->Ok_0;
    repatching_grows(c1, sb, d, file, data.len() as u64, raw);
    repatch_is_there(c1, sb, d, file, data.len() as u64, raw);
    let t = with_new_content(c, sb, d, file)->Ok_0;
    content_goes_on_standing(c1, t, start, bs, data, raw, c.tail.len() as int);
    assert(t.patches[0] == t.patches.last());
}

/// What the tail of appending holds.
proof fn appending_writes(sb: Superblock, d: Seq<u8>, root: NodeView)
    requires
        has_whole_slots(sb),
        append_tail(sb, d, arranged_tree(root), tail_start(sb, d)) is Ok,
    ensures
        ({
            let start = tail_start(sb, d);
            let t = appending_tail(sb, d, root);
            &&& in_step(t, start, sb.block_size as int)
            &&& match change_of(sb, d, root) {
                None => false,
                Some(Change::New { parent, file }) => directory_written(sb, d, start, t, parent)
                    && file_written(sb, start, t, file),
                Some(Change::Replaced { file }) => file_rewritten(sb, d, start, t, file),
            }
            &&& forall|j: int, p: int|
                0 <= j < t.patches.len() && #[trigger] t.patches[j].covers(p) ==> appended_byte(
                    sb,
                    d,
                    root,
                    p,
                )
        }),
{
    let bs = sb.block_size as int;
    let start = tail_start(sb, d);
    let c = empty_tail(start);
    ceil_div_covers(d.len() as int, bs);
    vstd::arithmetic::div_mod::lemma_mod_multiples_basic(ceil_div(d.len() as int, bs), bs);
    assert(in_step(c, start, bs));
    let t = appending_tail(sb, d, root);
    match change_of(sb, d, root)->Some_0 {
        Change::New { parent, file } => {
            first_has_the_number(arranged_tree(root), fresh_number(sb, start));
            files_are_written(c, sb, start, file);
            let c1 = with_new_file(c, sb, file)->Ok_0;
            directories_are_written(c1, sb, d, start, parent);
            files_go_on(sb, start, c1, t, file);
        },
        Change::Replaced { file } => {
            files_are_rewritten(c, sb, d, start, file);
        },
    }
}

// ---------------------------------------------------------------------
// The laws
// ---------------------------------------------------------------------
/// Appending keeps every byte that it does not touch: all but four fields of
/// the superblock, the inode of a file that is replaced, and the directory of
/// a new one. New inodes and new content stand behind the end of the image.
pub proof fn appending_keeps_the_rest(sb: Superblock, d: Seq<u8>, root: NodeView, p: int)
    requires
        sb.wf(),
        append_plan(sb, d, root) is Ok,
        0 <= p < d.len(),
        !appended_byte(sb, d, root, p),
    ensures
        d.len() <= appended_to(sb, d, root).len(),
        appended_to(sb, d, root)[p] == d[p],
        append_plan(sb, d, root)->Ok_0.1 == tail_start(sb, d) + appending_tail(
            sb,
            d,
            root,
        ).tail.len(),
{
    let bs = sb.block_size as int;
    blocks_have_whole_slots(sb);
    ceil_div_covers(d.len() as int, bs);
    appending_writes(sb, d, root);
    let (t, inodes) = append_tail(sb, d, arranged_tree(root), tail_start(sb, d))->Ok_0;
    assert forall|k: int| 0 <= k < t.patches.len() implies !(#[trigger] t.patches[k]).covers(p) by {
        assert(t.patches[k].covers(p) ==> appended_byte(sb, d, root, p));
    }
    plans_spare(
        d,
        t.patches,
        sb,
        inodes as u64,
        (t.cursor / bs) as u32,
        tail_start(sb, d),
        t.tail,
        p,
    );
}

/// Appending to an image in which nothing stands where an inode or the
/// superblock is: no patch covers another one, and the numbers of blocks fit
/// into 32 bits.
pub open spec fn append_is_sound(sb: Superblock, d: Seq<u8>, root: NodeView) -> bool {
    &&& sb.wf()
    &&& sb.block_size <= 65536
    &&& append_plan(sb, d, root) matches Ok((patches, size)) && sound_plan(patches, size) && size
        / sb.block_size as int <= u32::MAX && size <= u64::MAX
}

/// What an image holds after appending.
proof fn appended_patches_arrive(sb: Superblock, d: Seq<u8>, root: NodeView)
    requires
        append_is_sound(sb, d, root),
    ensures
        ({
            let e = appended_to(sb, d, root);
            let t = appending_tail(sb, d, root);
            &&& forall|j: int|
                0 <= j < t.patches.len() ==> holds(
                    e,
                    (#[trigger] t.patches[j]).at,
                    t.patches[j].data,
                )
            &&& holds(e, tail_start(sb, d), t.tail)
            &&& e.len() == t.cursor
        }),
{
    let (t, inodes) = append_tail(sb, d, arranged_tree(root), tail_start(sb, d))->Ok_0;
    let sp = super_patches(sb, inodes as u64, (t.cursor / sb.block_size as int) as u32);
    plans_arrive(d, t.patches, sp, tail_start(sb, d), t.tail, t.cursor);
}

/// The file that was replaced reads back with its new content, mode and
/// owner, and its attributes stay where they were.
pub proof fn replaced_file_reads_back(sb: Superblock, d: Seq<u8>, root: NodeView, file: NodeView)
    requires
        append_is_sound(sb, d, root),
        change_of(sb, d, root) == Some(Change::Replaced { file }),
        inode_of(sb, d, file.nid) is Ok,
        file.data().len() <= MAX_FILE_BUFFER,
        file.data().len() <= usize::MAX,
    ensures
        ({
            let e = appended_to(sb, d, root);
            &&& inode_of(sb, e, file.nid) matches Ok(fi) && fi.mode == file.mode && fi.uid
                == file.uid && fi.gid == file.gid
            &&& content_of(sb, e, file.nid) == Ok::<Seq<u8>, Fault>(file.data())
            &&& attributes_stay(sb, d, e, file.nid)
        }),
{
    let bs = sb.block_size as int;
    let start = tail_start(sb, d);
    let e = appended_to(sb, d, root);
    let t = appending_tail(sb, d, root);
    let data = file.data();
    blocks_have_whole_slots(sb);
    appending_writes(sb, d, root);
    appended_patches_arrive(sb, d, root);
    ceil_div_covers(d.len() as int, bs);
    let (raw, o) = choose|raw: u32, o: int| #[trigger]
        rewrites(sb, d, t.patches[0], file, data.len() as u64, raw) && #[trigger] stands(
            t,
            start,
            bs,
            data,
            raw,
            o,
        );
    let w = t.patches[0];
    assert(holds(e, w.at, w.data));
    let x = d.subrange(w.at, w.at + 64);
    repatched_inodes_read_back(sb, d, e, x, file, data.len() as u64, raw, w.data);
    standing_content_is_read(e, t, start, bs, data, raw, o);
    plain_content_reads_back(sb, e, file.nid, inode_of(sb, e, file.nid)->Ok_0, data);
}

/// The file that was appended reads back with its content, mode and owner. Its
/// inode stands behind everything that the image held.
pub proof fn appended_file_reads_back(
    sb: Superblock,
    d: Seq<u8>,
    root: NodeView,
    parent: NodeView,
    file: NodeView,
)
    requires
        append_is_sound(sb, d, root),
        change_of(sb, d, root) == Some(Change::New { parent, file }),
        file.data().len() <= u32::MAX,
        file.data().len() <= usize::MAX,
    ensures
        ({
            let e = appended_to(sb, d, root);
            &&& d.len() <= inode_offset(sb, file.nid)
            &&& inode_of(sb, e, file.nid) matches Ok(fi) && fi.mode == file.mode && fi.uid
                == file.uid && fi.gid == file.gid
            &&& content_of(sb, e, file.nid) == Ok::<Seq<u8>, Fault>(file.data())
        }),
{
    let bs = sb.block_size as int;
    let start = tail_start(sb, d);
    let e = appended_to(sb, d, root);
    let t = appending_tail(sb, d, root);
    let data = file.data();
    let none = Seq::<u8>::empty();
    blocks_have_whole_slots(sb);
    appending_writes(sb, d, root);
    appended_patches_arrive(sb, d, root);
    let (raw, o, q) = choose|raw: u32, o: int, q: int| #[trigger]
        creates(sb, start, t, file, data.len() as u64, raw, none, o) && #[trigger] stands(
            t,
            start,
            bs,
            data,
            raw,
            q,
        );
    ceil_div_covers(d.len() as int, bs);
    few_blocks(e.len() as int, bs);
    created_inodes_stand(sb, e, t, start, file, data.len() as u64, raw, none, o);
    fresh_inodes_read_back(sb, e, file.nid, file, data.len() as u32, raw, none);
    standing_content_is_read(e, t, start, bs, data, raw, q);
    plain_content_reads_back(sb, e, file.nid, inode_of(sb, e, file.nid)->Ok_0, data);
}

/// The directory of the file that was appended is there: over its old
/// content where that was plain, or else behind the end, where it reads back
/// with the entries for all of its children.
pub proof fn appended_directory_reads_back(
    sb: Superblock,
    d: Seq<u8>,
    root: NodeView,
    parent: NodeView,
    file: NodeView,
)
    requires
        append_is_sound(sb, d, root),
        change_of(sb, d, root) == Some(Change::New { parent, file }),
        inode_of(sb, d, parent.nid) is Ok,
        parent.nid != 0,
        directory_content(parent, sb.block_size as int).len() <= MAX_FILE_BUFFER,
        directory_content(parent, sb.block_size as int).len() <= usize::MAX,
        packed_items(items_of(parent), 0, sb.block_size as int) is Some,
        parent.parent_nid != 0,
        forall|i: int|
            0 <= i < parent.children.len() ==> {
                &&& (#[trigger] parent.children[i]).nid != 0
                &&& parent.children[i].name.len() > 0
                &&& !parent.children[i].name.contains('\0')
            },
    ensures
        ({
            let e = appended_to(sb, d, root);
            if parent.layout == 0 {
                holds(
                    e,
                    parent.raw_block * sb.block_size,
                    directory_content(parent, sb.block_size as int),
                )
            } else {
                &&& inode_of(sb, e, parent.nid) matches Ok(fi) && fi.mode == parent.mode
                    && fi.uid == parent.uid && fi.gid == parent.gid
                &&& content_of(sb, e, parent.nid) matches Ok(data) && parsed(
                    data,
                    sb.block_size as int,
                ) == Ok::<Seq<RawView>, Fault>(item_views(items_of(parent)))
                &&& attributes_stay(sb, d, e, parent.nid)
            }
        }),
{
    let bs = sb.block_size as int;
    let start = tail_start(sb, d);
    let e = appended_to(sb, d, root);
    let t = appending_tail(sb, d, root);
    let data = directory_content(parent, bs);
    blocks_have_whole_slots(sb);
    appending_writes(sb, d, root);
    appended_patches_arrive(sb, d, root);
    ceil_div_covers(d.len() as int, bs);
    let w = t.patches[0];
    assert(holds(e, w.at, w.data));
    if parent.layout != 0 {
        let (raw, o) = choose|raw: u32, o: int| #[trigger]
            rewrites(sb, d, t.patches[0], parent, data.len() as u64, raw) && #[trigger] stands(
                t,
                start,
                bs,
                data,
                raw,
                o,
            );
        let x = d.subrange(w.at, w.at + 64);
        repatched_inodes_read_back(sb, d, e, x, parent, data.len() as u64, raw, w.data);
        standing_content_is_read(e, t, start, bs, data, raw, o);
        plain_content_reads_back(sb, e, parent.nid, inode_of(sb, e, parent.nid)->Ok_0, data);
        directories_read_back(parent, bs);
    }
}

} // verus!
