//! EROFS images of which only modes and owners were changed: nothing else
//! changes, and what was changed reads back.
use super::edited_images::{only_owners, own_patches_are_alone};
use super::in_place::{
    alike, came_out, data_rests, inode_rests, is_shallow, label_rests, listed_trees_are_read,
    lists, owned_by, reads_node, trees_come_out,
};
use super::node::{all_preorder, preorder, NodeView};
use super::overlay_read_back::{patched_owners_read_back, sound_plan};
use super::patch::{
    all_metadata_patches, metadata_patches, node_patches, patched, untouched_bytes_stay,
};
use super::source::{content_of, tree_of};
use crate::error::Fault;
use crate::fs::erofs::dir::parsed;
use crate::fs::erofs::inode::{data_of, inode_of, inode_offset, Inode};
use crate::fs::erofs::xattr::selinux_of;
use crate::fs::erofs::Superblock;
use vstd::prelude::*;

verus! {

// ---------------------------------------------------------------------
// The bytes that are touched
// ---------------------------------------------------------------------
/// A byte of the inode of a changed node.
pub open spec fn retouched_byte(sb: Superblock, n: NodeView, p: int) -> bool
    decreases n,
{
    ||| n.modified && inode_offset(sb, n.nid) <= p < inode_offset(sb, n.nid) + 32
    ||| exists|i: int|
        0 <= i < n.children.len() && retouched_byte(sb, #[trigger] n.children[i], p)
}

/// The bytes of the inodes of changed nodes.
pub open spec fn retouches(sb: Superblock, n: NodeView) -> spec_fn(int) -> bool {
    |p: int| retouched_byte(sb, n, p)
}

spec fn any_retouched(sb: Superblock, s: Seq<NodeView>, p: int) -> bool {
    exists|i: int| 0 <= i < s.len() && retouched_byte(sb, #[trigger] s[i], p)
}

proof fn owners_stay_in_the_inode(sb: Superblock, d: Seq<u8>, n: NodeView, j: int, p: int)
    requires
        node_patches(sb, d, n) is Ok,
        0 <= j < node_patches(sb, d, n)->Ok_0.len(),
        node_patches(sb, d, n)->Ok_0[j].covers(p),
    ensures
        inode_offset(sb, n.nid) <= p < inode_offset(sb, n.nid) + 32,
{
}

proof fn patches_stay_in_inodes(sb: Superblock, d: Seq<u8>, n: NodeView, j: int, p: int)
    requires
        metadata_patches(sb, d, n) is Ok,
        0 <= j < metadata_patches(sb, d, n)->Ok_0.len(),
        metadata_patches(sb, d, n)->Ok_0[j].covers(p),
    ensures
        retouched_byte(sb, n, p),
    decreases n,
{
    let own = if n.modified {
        node_patches(sb, d, n)->Ok_0
    } else {
        Seq::empty()
    };
    let rest = all_metadata_patches(sb, d, n.children)->Ok_0;
    assert(metadata_patches(sb, d, n)->Ok_0 == own + rest);
    if j < own.len() {
        owners_stay_in_the_inode(sb, d, n, j, p);
    } else {
        all_patches_stay_in_inodes(sb, d, n.children, j - own.len(), p);
        assert(any_retouched(sb, n.children, p));
    }
}

proof fn all_patches_stay_in_inodes(
    sb: Superblock,
    d: Seq<u8>,
    s: Seq<NodeView>,
    j: int,
    p: int,
)
    requires
        all_metadata_patches(sb, d, s) is Ok,
        0 <= j < all_metadata_patches(sb, d, s)->Ok_0.len(),
        all_metadata_patches(sb, d, s)->Ok_0[j].covers(p),
    ensures
        any_retouched(sb, s, p),
    decreases s,
{
    let front = s.subrange(0, s.len() - 1);
    let last = s[s.len() - 1];
    let a = all_metadata_patches(sb, d, front)->Ok_0;
    if j < a.len() {
        all_patches_stay_in_inodes(sb, d, front, j, p);
        let i = choose|i: int|
            0 <= i < front.len() && retouched_byte(sb, #[trigger] front[i], p);
        assert(s[i] == front[i]);
    } else {
        patches_stay_in_inodes(sb, d, last, j - a.len(), p);
    }
}

/// The image with modes and owners changed.
pub open spec fn retouched(sb: Superblock, d: Seq<u8>, root: NodeView) -> Seq<u8> {
    patched(d, metadata_patches(sb, d, root)->Ok_0, d.len() as int)
}

/// Changing modes and owners keeps the size of an image, and every byte but
/// those of the inodes of changed nodes.
pub proof fn retouches_keep_the_rest(sb: Superblock, d: Seq<u8>, root: NodeView)
    requires
        metadata_patches(sb, d, root) is Ok,
    ensures
        retouched(sb, d, root).len() == d.len(),
        alike(d, retouches(sb, root), retouched(sb, d, root)),
{
    let patches = metadata_patches(sb, d, root)->Ok_0;
    let e = retouched(sb, d, root);
    assert forall|p: int| 0 <= p < d.len() && !retouched_byte(sb, root, p) implies #[trigger] e[p]
        == d[p] by {
        assert forall|k: int| 0 <= k < patches.len() implies !(#[trigger] patches[k]).covers(p) by {
            if patches[k].covers(p) {
                patches_stay_in_inodes(sb, d, root, k, p);
            }
        }
        untouched_bytes_stay(d, patches, p);
    }
}

// ---------------------------------------------------------------------
// What was changed
// ---------------------------------------------------------------------
/// Where the patches of a changed node are.
proof fn owners_are_patched(sb: Superblock, d: Seq<u8>, n: NodeView, k: int) -> (j: int)
    requires
        metadata_patches(sb, d, n) is Ok,
        0 <= k < preorder(n).len(),
        preorder(n)[k].modified,
    ensures
        node_patches(sb, d, preorder(n)[k]) is Ok,
        0 <= j,
        j + 3 <= metadata_patches(sb, d, n)->Ok_0.len(),
        metadata_patches(sb, d, n)->Ok_0.subrange(j, j + 3) == node_patches(
            sb,
            d,
            preorder(n)[k],
        )->Ok_0,
    decreases n,
{
    let own = if n.modified {
        node_patches(sb, d, n)->Ok_0
    } else {
        Seq::empty()
    };
    let rest = all_metadata_patches(sb, d, n.children)->Ok_0;
    let all = metadata_patches(sb, d, n)->Ok_0;
    assert(all == own + rest);
    if k == 0 {
        assert(own.len() == 3);
        assert(all.subrange(0, 3) =~= own);
        0
    } else {
        assert(preorder(n)[k] == all_preorder(n.children)[k - 1]);
        let j = all_owners_are_patched(sb, d, n.children, k - 1);
        let q = own.len() + j;
        assert(all.subrange(q, q + 3) =~= rest.subrange(j, j + 3));
        q
    }
}

proof fn all_owners_are_patched(sb: Superblock, d: Seq<u8>, s: Seq<NodeView>, k: int) -> (j: int)
    requires
        all_metadata_patches(sb, d, s) is Ok,
        0 <= k < all_preorder(s).len(),
        all_preorder(s)[k].modified,
    ensures
        node_patches(sb, d, all_preorder(s)[k]) is Ok,
        0 <= j,
        j + 3 <= all_metadata_patches(sb, d, s)->Ok_0.len(),
        all_metadata_patches(sb, d, s)->Ok_0.subrange(j, j + 3) == node_patches(
            sb,
            d,
            all_preorder(s)[k],
        )->Ok_0,
    decreases s,
{
    let front = s.subrange(0, s.len() - 1);
    let last = s[s.len() - 1];
    let a = all_metadata_patches(sb, d, front)->Ok_0;
    let b = metadata_patches(sb, d, last)->Ok_0;
    let all = all_metadata_patches(sb, d, s)->Ok_0;
    assert(all == a + b);
    let count = all_preorder(front).len();
    if k < count {
        assert(all_preorder(s)[k] == all_preorder(front)[k]);
        let j = all_owners_are_patched(sb, d, front, k);
        assert(all.subrange(j, j + 3) =~= a.subrange(j, j + 3));
        j
    } else {
        assert(all_preorder(s)[k] == preorder(last)[k - count]);
        let j = owners_are_patched(sb, d, last, k - count);
        let q = a.len() + j;
        assert(all.subrange(q, q + 3) =~= b.subrange(j, j + 3));
        q
    }
}

/// A node whose mode or owner was changed reads back with them, and with
/// everything else that it had.
pub proof fn retouched_nodes_read_back(sb: Superblock, d: Seq<u8>, root: NodeView, k: int)
    requires
        metadata_patches(sb, d, root) matches Ok(patches) && sound_plan(patches, d.len() as int),
        0 <= k < preorder(root).len(),
        preorder(root)[k].modified,
        inode_of(sb, d, preorder(root)[k].nid) matches Ok(fi) && only_owners(
            sb,
            d,
            metadata_patches(sb, d, root)->Ok_0,
            preorder(root)[k],
            fi,
        ),
    ensures
        ({
            let m = preorder(root)[k];
            let fi = inode_of(sb, d, m.nid)->Ok_0;
            inode_of(sb, retouched(sb, d, root), m.nid) == Ok::<Inode, Fault>(
                owned_by(
                    fi,
                    m.mode,
                    m.uid,
                    m.gid,
                ),
            )
        }),
{
    let m = preorder(root)[k];
    let fi = inode_of(sb, d, m.nid)->Ok_0;
    let patches = metadata_patches(sb, d, root)->Ok_0;
    let j = owners_are_patched(sb, d, root, k);
    own_patches_are_alone(sb, d, patches, d.len() as int, j, m, fi);
    patched_owners_read_back(sb, d, patches, d.len() as int, j, m);
}

// ---------------------------------------------------------------------
// The tree
// ---------------------------------------------------------------------
/// The image says of a node what the tree says, but for a changed mode and
/// owner, and the node does not rest on the inodes of other changed nodes.
pub open spec fn is_stored(sb: Superblock, d: Seq<u8>, root: NodeView, m: NodeView) -> bool {
    inode_of(sb, d, m.nid) matches Ok(fi) && {
        &&& selinux_of(sb, d, fi) is Ok
        &&& label_rests(sb, d, retouches(sb, root), fi)
        &&& data_rests(sb, d, retouches(sb, root), fi)
        &&& if m.modified {
            only_owners(sb, d, metadata_patches(sb, d, root)->Ok_0, m, fi)
        } else {
            &&& inode_rests(sb, d, retouches(sb, root), m.nid)
            &&& m.mode == fi.mode
            &&& m.uid == fi.uid
            &&& m.gid == fi.gid
        }
        &&& if !m.is_dir() || fi.size == 0 {
            m.children.len() == 0
        } else {
            data_of(sb, d, fi) matches Ok(data) && parsed(data, sb.block_size as int) matches Ok(
                entries,
            ) && lists(entries, m.children)
        }
    }
}

/// Every node keeps its content and its label when modes and owners change.
pub proof fn retouches_keep_content(sb: Superblock, d: Seq<u8>, root: NodeView, k: int)
    requires
        metadata_patches(sb, d, root) matches Ok(patches) && sound_plan(patches, d.len() as int),
        0 <= k < preorder(root).len(),
        is_stored(sb, d, root, preorder(root)[k]),
    ensures
        ({
            let m = preorder(root)[k];
            let e = retouched(sb, d, root);
            let fi = inode_of(sb, d, m.nid)->Ok_0;
            &&& inode_of(sb, e, m.nid) == Ok::<Inode, Fault>(owned_by(fi, m.mode, m.uid, m.gid))
            &&& content_of(sb, e, m.nid) == content_of(sb, d, m.nid)
            &&& selinux_of(sb, e, owned_by(fi, m.mode, m.uid, m.gid)) == selinux_of(sb, d, fi)
            &&& reads_node(sb, e, m)
        }),
{
    let m = preorder(root)[k];
    let e = retouched(sb, d, root);
    let fi = inode_of(sb, d, m.nid)->Ok_0;
    retouches_keep_the_rest(sb, d, root);
    assert(alike(d, retouches(sb, root), e));
    let out = owned_by(fi, m.mode, m.uid, m.gid);
    if m.modified {
        retouched_nodes_read_back(sb, d, root, k);
    } else {
        assert(out == fi);
    }
    assert(data_of(sb, e, out) == data_of(sb, d, fi));
}

/// The tree of an image of which modes and owners were changed is the tree
/// with the changes.
pub proof fn retouched_trees_read_back(
    sb: Superblock,
    d: Seq<u8>,
    root: NodeView,
    name: Seq<char>,
)
    requires
        metadata_patches(sb, d, root) matches Ok(patches) && sound_plan(patches, d.len() as int),
        is_shallow(root, 0),
        forall|k: int|
            0 <= k < preorder(root).len() ==> is_stored(sb, d, root, #[trigger] preorder(root)[k]),
    ensures
        tree_of(sb, retouched(sb, d, root), root.nid, name, 0) matches Ok(r) && r.name == name
            && came_out(r, root),
{
    let e = retouched(sb, d, root);
    let list = preorder(root);
    assert forall|k: int| 0 <= k < list.len() implies reads_node(sb, e, #[trigger] list[k]) by {
        assert(is_stored(sb, d, root, preorder(root)[k]));
        retouches_keep_content(sb, d, root, k);
    }
    listed_trees_are_read(sb, e, list, root, 0);
    trees_come_out(sb, e, root, name, 0);
}

} // verus!
