//! EROFS images that were edited in their place: the tree that is read is the
//! tree that was edited.
use super::edited_images::{
    after_edit, edit_is_sound, edited_directories_read_back, edited_nodes,
    edited_owners_read_back, edits_do_not_shorten, fresh_numbers, new_files_read_back,
    only_owners, replaced_files_read_back,
};
use super::in_place::{
    alike, area_rests, came_out, data_rests, inode_rests, is_shallow, items_are_listed,
    label_rests, labels_depend_on_the_place, listed_trees_are_read, lists, owned_by, reads_node,
    trees_come_out,
};
use super::layout::{directory_content, items_of, packed_items};
use super::node::{preorder, NodeView};
use super::overlay::{area_count, overlay_plan, DirNamesView};
use super::overlay_images::{blocks_have_whole_slots, new_area};
use super::overlay_laws::{
    names_changed, overlays_keep_the_rest, settled_tree, touched_byte,
};
use super::source::{content_of, tree_of};
use crate::buf::le16;
use crate::error::Fault;
use crate::fs::erofs::dir::parsed;
use crate::fs::erofs::inode::{
    data_of, inode_of, inode_offset, xattr_area, Inode, MAX_FILE_BUFFER,
};
use crate::fs::erofs::xattr::{area_entries, first_label, selinux_of, MAX_AREA};
use crate::fs::erofs::Superblock;
use vstd::prelude::*;

verus! {

/// The bytes of the image that an edit writes to.
pub open spec fn touches(
    sb: Superblock,
    d: Seq<u8>,
    root: NodeView,
    before: Seq<DirNamesView>,
) -> spec_fn(int) -> bool {
    |p: int| touched_byte(sb, d, root, before, p)
}


/// An edited image is the image but for what the edit touches.
pub proof fn edits_keep_the_rest(
    sb: Superblock,
    d: Seq<u8>,
    root: NodeView,
    before: Seq<DirNamesView>,
)
    requires
        0 < sb.block_size,
        overlay_plan(sb, d, root, before) is Ok,
    ensures
        alike(d, touches(sb, d, root, before), after_edit(sb, d, root, before)),
{
    let e = after_edit(sb, d, root, before);
    edits_do_not_shorten(sb, d, root, before);
    assert forall|p: int|
        0 <= p < d.len() && !touched_byte(sb, d, root, before, p) implies #[trigger] e[p]
        == d[p] by {
        overlays_keep_the_rest(sb, d, root, before, p);
    }
}

// ---------------------------------------------------------------------
// What an edit needs of a node
// ---------------------------------------------------------------------
/// What an edit needs of a directory that is written again.
pub open spec fn packable(m: NodeView, block_size: int) -> bool {
    &&& directory_content(m, block_size).len() <= MAX_FILE_BUFFER
    &&& directory_content(m, block_size).len() <= usize::MAX
    &&& packed_items(items_of(m), 0, block_size) is Some
    &&& m.parent_nid != 0
    &&& forall|i: int|
        0 <= i < m.children.len() ==> {
            &&& (#[trigger] m.children[i]).nid != 0
            &&& m.children[i].name.len() > 0
            &&& !m.children[i].name.contains('\0')
            &&& m.children[i].name != "."@
            &&& m.children[i].name != ".."@
        }
}

/// A new file can be read: its owner fits, and its attributes do not rest on
/// bytes that the edit touches.
pub open spec fn new_node_fits(
    sb: Superblock,
    d: Seq<u8>,
    root: NodeView,
    before: Seq<DirNamesView>,
    m: NodeView,
) -> bool {
    &&& !m.is_dir()
    &&& m.children.len() == 0
    &&& m.uid <= u16::MAX
    &&& m.gid <= u16::MAX
    &&& area_rests(sb, d, touches(sb, d, root, before), new_area(sb, d, m))
    &&& new_area(sb, d, m).len() > 0 ==> area_entries(sb, d, new_area(sb, d, m)) is Ok
}

/// A node that was there can be read: the image says of it what the tree
/// says, and what the edit does not write of it does not rest
/// on bytes that the edit touches.
pub open spec fn old_node_fits(
    sb: Superblock,
    d: Seq<u8>,
    root: NodeView,
    before: Seq<DirNamesView>,
    m: NodeView,
) -> bool {
    inode_of(sb, d, m.nid) matches Ok(fi) && {
        &&& m.nid != 0
        &&& selinux_of(sb, d, fi) is Ok
        &&& label_rests(sb, d, touches(sb, d, root, before), fi)
        &&& m.is_dir() ==> !m.content_changed
        &&& !m.is_dir() ==> m.children.len() == 0
        &&& names_changed(before, m) ==> packable(m, sb.block_size as int)
        &&& !names_changed(before, m) && !m.content_changed ==> {
            &&& data_rests(sb, d, touches(sb, d, root, before), fi)
            &&& if m.modified {
                only_owners(sb, d, overlay_plan(sb, d, root, before)->Ok_0.0, m, fi)
            } else {
                &&& inode_rests(sb, d, touches(sb, d, root, before), m.nid)
                &&& m.mode == fi.mode
                &&& m.uid == fi.uid
                &&& m.gid == fi.gid
            }
            &&& m.is_dir() ==> if fi.size == 0 {
                m.children.len() == 0
            } else {
                data_of(sb, d, fi) matches Ok(data) && parsed(data, sb.block_size as int) matches Ok(
                    entries,
                ) && lists(entries, m.children)
            }
        }
    }
}

// ---------------------------------------------------------------------
// One node
// ---------------------------------------------------------------------
/// A node of which an edit writes the mode and the owner at most keeps its
/// content and its label.
pub proof fn other_nodes_stay(
    sb: Superblock,
    d: Seq<u8>,
    root: NodeView,
    before: Seq<DirNamesView>,
    k: int,
)
    requires
        edit_is_sound(sb, d, root, before),
        0 <= k < edited_nodes(sb, d, root).len(),
        !fresh_numbers(sb, d, root).contains(edited_nodes(sb, d, root)[k].nid),
        old_node_fits(sb, d, root, before, edited_nodes(sb, d, root)[k]),
        !names_changed(before, edited_nodes(sb, d, root)[k]),
        !edited_nodes(sb, d, root)[k].content_changed,
    ensures
        ({
            let m = edited_nodes(sb, d, root)[k];
            let e = after_edit(sb, d, root, before);
            let fi = inode_of(sb, d, m.nid)->Ok_0;
            &&& inode_of(sb, e, m.nid) == Ok::<Inode, Fault>(owned_by(fi, m.mode, m.uid, m.gid))
            &&& content_of(sb, e, m.nid) == content_of(sb, d, m.nid)
            &&& selinux_of(sb, e, owned_by(fi, m.mode, m.uid, m.gid)) == selinux_of(sb, d, fi)
        }),
{
    let m = edited_nodes(sb, d, root)[k];
    let e = after_edit(sb, d, root, before);
    let fi = inode_of(sb, d, m.nid)->Ok_0;
    blocks_have_whole_slots(sb);
    edits_keep_the_rest(sb, d, root, before);
    let out = owned_by(fi, m.mode, m.uid, m.gid);
    if m.modified {
        edited_owners_read_back(sb, d, root, before, k);
    } else {
        assert(alike(d, touches(sb, d, root, before), e));
        assert(out == fi);
    }
    assert(data_of(sb, e, out) == data_of(sb, d, fi));
}

proof fn old_nodes_are_read(
    sb: Superblock,
    d: Seq<u8>,
    root: NodeView,
    before: Seq<DirNamesView>,
    k: int,
)
    requires
        edit_is_sound(sb, d, root, before),
        sb.block_size <= 65536,
        0 <= k < edited_nodes(sb, d, root).len(),
        !fresh_numbers(sb, d, root).contains(edited_nodes(sb, d, root)[k].nid),
        old_node_fits(sb, d, root, before, edited_nodes(sb, d, root)[k]),
    ensures
        reads_node(sb, after_edit(sb, d, root, before), edited_nodes(sb, d, root)[k]),
{
    let m = edited_nodes(sb, d, root)[k];
    let e = after_edit(sb, d, root, before);
    let fi = inode_of(sb, d, m.nid)->Ok_0;
    blocks_have_whole_slots(sb);
    edits_keep_the_rest(sb, d, root, before);
    if names_changed(before, m) {
        edited_directories_read_back(sb, d, root, before, k);
        let out = inode_of(sb, e, m.nid)->Ok_0;
        labels_depend_on_the_place(sb, e, out, owned_by(fi, fi.mode, fi.uid, fi.gid));
        items_are_listed(m);
    } else if m.content_changed {
        replaced_files_read_back(sb, d, root, before, k);
        let out = inode_of(sb, e, m.nid)->Ok_0;
        labels_depend_on_the_place(sb, e, out, owned_by(fi, fi.mode, fi.uid, fi.gid));
    } else {
        other_nodes_stay(sb, d, root, before, k);
        if m.is_dir() && fi.size > 0 {
            let out = owned_by(fi, m.mode, m.uid, m.gid);
            assert(data_of(sb, e, out) == data_of(sb, d, fi));
        }
    }
}

// ---------------------------------------------------------------------
// New nodes
// ---------------------------------------------------------------------
/// What the attributes of a file that is copied are made of.
proof fn areas_have_their_length(sb: Superblock, d: Seq<u8>, n: NodeView)
    ensures
        ({
            let area = new_area(sb, d, n);
            &&& area.len() <= MAX_AREA
            &&& area.len() == xattr_area(area_count(area) as int)
        }),
{
    let area = new_area(sb, d, n);
    if n.original_nid != 0 && area.len() > 0 {
        let at = inode_offset(sb, n.original_nid);
        let x = d.subrange(at, at + 64);
        let count = le16(x, 2) as int;
        assert(area.len() == 8 + 4 * count);
    }
}

/// A new file is read with its mode and its owner, and with the label of the
/// file that it is a copy of.
pub proof fn new_nodes_are_read(
    sb: Superblock,
    d: Seq<u8>,
    root: NodeView,
    before: Seq<DirNamesView>,
    k: int,
)
    requires
        edit_is_sound(sb, d, root, before),
        0 <= k < edited_nodes(sb, d, root).len(),
        fresh_numbers(sb, d, root).contains(edited_nodes(sb, d, root)[k].nid),
        new_node_fits(sb, d, root, before, edited_nodes(sb, d, root)[k]),
    ensures
        reads_node(sb, after_edit(sb, d, root, before), edited_nodes(sb, d, root)[k]),
        new_label(sb, d, after_edit(sb, d, root, before), edited_nodes(sb, d, root)[k]),
{
    let m = edited_nodes(sb, d, root)[k];
    let e = after_edit(sb, d, root, before);
    blocks_have_whole_slots(sb);
    edits_keep_the_rest(sb, d, root, before);
    new_files_read_back(sb, d, root, before, k);
    areas_have_their_length(sb, d, m);
    let area = new_area(sb, d, m);
    let fi = inode_of(sb, e, m.nid)->Ok_0;
    assert(alike(d, touches(sb, d, root, before), e));
    if area.len() > 0 {
        assert(e.subrange(
            inode_offset(sb, m.nid) + m.body(),
            inode_offset(sb, m.nid) + m.body() + area.len(),
        ) == area);
    }
}

/// The label of a new file is that of the file that it is a copy of.
pub open spec fn new_label(sb: Superblock, d: Seq<u8>, e: Seq<u8>, m: NodeView) -> bool {
    let area = new_area(sb, d, m);
    inode_of(sb, e, m.nid) matches Ok(fi) && selinux_of(sb, e, fi) == if area.len() == 0 {
        Ok::<Option<Seq<char>>, Fault>(None)
    } else {
        match area_entries(sb, d, area) {
            Ok(all) => Ok(first_label(all)),
            Err(x) => Err(x),
        }
    }
}

// ---------------------------------------------------------------------
// The tree
// ---------------------------------------------------------------------
/// What an edit needs of every node of the tree.
pub open spec fn node_fits(
    sb: Superblock,
    d: Seq<u8>,
    root: NodeView,
    before: Seq<DirNamesView>,
    m: NodeView,
) -> bool {
    if fresh_numbers(sb, d, root).contains(m.nid) {
        new_node_fits(sb, d, root, before, m)
    } else {
        old_node_fits(sb, d, root, before, m)
    }
}

/// The tree of an image that was edited in its place is the tree that was
/// edited: with its names, modes and owners, new files and all.
pub proof fn edited_trees_read_back(
    sb: Superblock,
    d: Seq<u8>,
    root: NodeView,
    before: Seq<DirNamesView>,
    name: Seq<char>,
)
    requires
        edit_is_sound(sb, d, root, before),
        sb.block_size <= 65536,
        is_shallow(settled_tree(sb, d, root)->Ok_0.0, 0),
        forall|k: int|
            0 <= k < edited_nodes(sb, d, root).len() ==> node_fits(
                sb,
                d,
                root,
                before,
                #[trigger] edited_nodes(sb, d, root)[k],
            ),
    ensures
        tree_of(sb, after_edit(sb, d, root, before), root.nid, name, 0) matches Ok(r) && r.name == name
            && came_out(r, settled_tree(sb, d, root)->Ok_0.0),
{
    let e = after_edit(sb, d, root, before);
    let n = settled_tree(sb, d, root)->Ok_0.0;
    let list = edited_nodes(sb, d, root);
    assert forall|k: int| 0 <= k < list.len() implies reads_node(sb, e, #[trigger] list[k]) by {
        assert(node_fits(sb, d, root, before, edited_nodes(sb, d, root)[k]));
        if fresh_numbers(sb, d, root).contains(list[k].nid) {
            new_nodes_are_read(sb, d, root, before, k);
        } else {
            old_nodes_are_read(sb, d, root, before, k);
        }
    }
    assert forall|k: int| 0 <= k < preorder(n).len() implies list.contains(
        #[trigger] preorder(n)[k],
    ) by {
        assert(list[k] == preorder(n)[k]);
    }
    listed_trees_are_read(sb, e, list, n, 0);
    trees_come_out(sb, e, n, name, 0);
}

} // verus!
