//! Images that were changed in their place: what their trees are read as.
use super::dir_laws::item_views;
use super::layout::items_of;
use super::node::{all_preorder, preorder, NodeView, PayloadView};
use super::read_back::directory_node;
use super::source::{kids_of, read_node, tree_of, MAX_DEPTH};
use crate::error::Fault;
use crate::fs::erofs::dir::{parsed, RawView};
use crate::fs::erofs::inode::{data_of, inode_of, Inode};
use crate::fs::erofs::xattr::{area_entries, selinux_of};
use crate::fs::erofs::Superblock;
use crate::text::padded_text;
use vstd::prelude::*;
use vstd::utf8::encode_utf8;

verus! {

// ---------------------------------------------------------------------
// Trees that come out as they should
// ---------------------------------------------------------------------
/// The entries of a directory but for `.` and `..` are the children.
pub open spec fn lists(entries: Seq<RawView>, s: Seq<NodeView>) -> bool
    decreases entries.len(),
{
    if entries.len() == 0 {
        s.len() == 0
    } else {
        let e = entries.last();
        if e.name == "."@ || e.name == ".."@ {
            lists(entries.drop_last(), s)
        } else {
            s.len() > 0 && s.last().name == e.name && s.last().nid == e.nid && lists(
                entries.drop_last(),
                s.drop_last(),
            )
        }
    }
}

/// A node is read from the image as it should be.
pub open spec fn reads_node(sb: Superblock, e: Seq<u8>, n: NodeView) -> bool {
    inode_of(sb, e, n.nid) matches Ok(fi) && {
        &&& fi.mode == n.mode
        &&& fi.uid == n.uid
        &&& fi.gid == n.gid
        &&& selinux_of(sb, e, fi) is Ok
        &&& if !n.is_dir() || fi.size == 0 {
            n.children.len() == 0
        } else {
            data_of(sb, e, fi) matches Ok(data) && parsed(data, sb.block_size as int) matches Ok(
                entries,
            ) && lists(entries, n.children)
        }
    }
}

/// All nodes of a tree are read as they should be, and the tree is not too
/// deep.
pub open spec fn reads_tree(sb: Superblock, e: Seq<u8>, n: NodeView, depth: int) -> bool
    decreases n,
{
    &&& depth <= MAX_DEPTH
    &&& reads_node(sb, e, n)
    &&& forall|i: int|
        0 <= i < n.children.len() ==> reads_tree(sb, e, #[trigger] n.children[i], depth + 1)
}

/// The tree `r` that was read is the tree `n`: the same numbers, names, modes
/// and owners.
pub open spec fn came_out(r: NodeView, n: NodeView) -> bool
    decreases n,
{
    &&& r.nid == n.nid
    &&& r.mode == n.mode
    &&& r.uid == n.uid
    &&& r.gid == n.gid
    &&& r.children.len() == n.children.len()
    &&& forall|i: int|
        0 <= i < n.children.len() ==> r.children[i].name == (#[trigger] n.children[i]).name
            && came_out(r.children[i], n.children[i])
}

/// A tree whose nodes are all read as they should be comes out.
pub proof fn trees_come_out(sb: Superblock, e: Seq<u8>, n: NodeView, name: Seq<char>, depth: int)
    requires
        0 <= depth,
        reads_tree(sb, e, n, depth),
    ensures
        tree_of(sb, e, n.nid, name, depth) matches Ok(r) && r.name == name && came_out(r, n),
    decreases n, 1int, 0int,
{
    let fi = inode_of(sb, e, n.nid)->Ok_0;
    assert(reads_node(sb, e, n));
    if !n.is_dir() || fi.size == 0 {
        leaves_come_out(sb, e, n, name, depth);
    } else {
        let data = data_of(sb, e, fi)->Ok_0;
        let entries = parsed(data, sb.block_size as int)->Ok_0;
        assert(n.children.take(n.children.len() as int) =~= n.children);
        kids_come_out(sb, e, n, entries, n.children.len() as int, depth);
        directories_come_out(sb, e, n, name, depth, entries);
    }
}

/// A file, or an empty directory, comes out.
proof fn leaves_come_out(sb: Superblock, e: Seq<u8>, n: NodeView, name: Seq<char>, depth: int)
    requires
        depth <= MAX_DEPTH,
        reads_node(sb, e, n),
        !n.is_dir() || inode_of(sb, e, n.nid)->Ok_0.size == 0,
    ensures
        tree_of(sb, e, n.nid, name, depth) matches Ok(r) && r.name == name && came_out(r, n),
{
    let fi = inode_of(sb, e, n.nid)->Ok_0;
    let context = selinux_of(sb, e, fi)->Ok_0;
    let r = read_node(n.nid, name, fi, PayloadView::Empty, Seq::empty(), context);
    assert(tree_of(sb, e, n.nid, name, depth) == Ok::<NodeView, Fault>(r));
    assert(came_out(r, n));
}

/// A directory whose children come out comes out.
proof fn directories_come_out(
    sb: Superblock,
    e: Seq<u8>,
    n: NodeView,
    name: Seq<char>,
    depth: int,
    entries: Seq<RawView>,
)
    requires
        depth <= MAX_DEPTH,
        reads_node(sb, e, n),
        n.is_dir(),
        inode_of(sb, e, n.nid)->Ok_0.size > 0,
        ({
            let fi = inode_of(sb, e, n.nid)->Ok_0;
            parsed(data_of(sb, e, fi)->Ok_0, sb.block_size as int) == Ok::<Seq<RawView>, Fault>(
                entries,
            )
        }),
        kids_of(sb, e, entries, depth + 1) matches Ok(s) && s.len() == n.children.len() && (forall|
            i: int,
        |
            0 <= i < n.children.len() ==> s[i].name == (#[trigger] n.children[i]).name && came_out(
                s[i],
                n.children[i],
            )),
    ensures
        tree_of(sb, e, n.nid, name, depth) matches Ok(r) && r.name == name && came_out(r, n),
{
    let fi = inode_of(sb, e, n.nid)->Ok_0;
    let context = selinux_of(sb, e, fi)->Ok_0;
    let data = data_of(sb, e, fi)->Ok_0;
    let kids = kids_of(sb, e, entries, depth + 1)->Ok_0;
    directory_node(sb, e, n.nid, name, depth, fi, data, context, entries, kids);
    let r = read_node(n.nid, name, fi, PayloadView::InlineDir(data), kids, context);
    assert(came_out(r, n));
}

proof fn kids_come_out(
    sb: Superblock,
    e: Seq<u8>,
    n: NodeView,
    entries: Seq<RawView>,
    m: int,
    depth: int,
)
    requires
        0 <= depth <= MAX_DEPTH,
        reads_tree(sb, e, n, depth),
        0 <= m <= n.children.len(),
        lists(entries, n.children.take(m)),
    ensures
        kids_of(sb, e, entries, depth + 1) matches Ok(s) && s.len() == m && (forall|i: int|
            0 <= i < m ==> s[i].name == (#[trigger] n.children[i]).name && came_out(
                s[i],
                n.children[i],
            )),
    decreases n, 0int, entries.len(),
{
    let s = n.children.take(m);
    if entries.len() > 0 {
        let x = entries.last();
        if x.name == "."@ || x.name == ".."@ {
            kids_come_out(sb, e, n, entries.drop_last(), m, depth);
        } else {
            assert(s.drop_last() =~= n.children.take(m - 1));
            kids_come_out(sb, e, n, entries.drop_last(), m - 1, depth);
            let c = n.children[m - 1];
            assert(s.last() == c);
            assert(reads_tree(sb, e, c, depth + 1));
            trees_come_out(sb, e, c, x.name, depth + 1);
        }
    }
}

/// The items of a directory list its children.
pub proof fn items_are_listed(m: NodeView)
    requires
        forall|i: int|
            0 <= i < m.children.len() ==> (#[trigger] m.children[i]).name != "."@
                && m.children[i].name != ".."@ && !m.children[i].name.contains('\0'),
    ensures
        lists(item_views(items_of(m)), m.children),
{
    let count = m.children.len() as int;
    some_items_are_listed(m, count);
    assert(item_views(items_of(m)).take(2 + count) =~= item_views(items_of(m)));
    assert(m.children.take(count) =~= m.children);
}

proof fn some_items_are_listed(m: NodeView, count: int)
    requires
        0 <= count <= m.children.len(),
        forall|i: int|
            0 <= i < m.children.len() ==> (#[trigger] m.children[i]).name != "."@
                && m.children[i].name != ".."@ && !m.children[i].name.contains('\0'),
    ensures
        lists(item_views(items_of(m)).take(2 + count), m.children.take(count)),
    decreases count,
{
    let entries = item_views(items_of(m));
    let t = entries.take(2 + count);
    if count == 0 {
        padded_text("."@, 0);
        padded_text(".."@, 0);
        assert(t.drop_last() =~= entries.take(1));
        assert(entries.take(1).drop_last() =~= Seq::empty());
        assert(items_of(m)[0].name == encode_utf8("."@));
        assert(items_of(m)[1].name == encode_utf8(".."@));
        assert(entries[0].name == "."@);
        assert(entries[1].name == ".."@);
        assert(lists(Seq::<RawView>::empty(), m.children.take(0)));
        assert(entries.take(1).last() == entries[0]);
        assert(lists(entries.take(1), m.children.take(0)));
        assert(t.last() == entries[1]);
    } else {
        let c = m.children[count - 1];
        some_items_are_listed(m, count - 1);
        assert(t.drop_last() =~= entries.take(2 + (count - 1)));
        assert(m.children.take(count).drop_last() =~= m.children.take(count - 1));
        assert(t.last() == entries[1 + count]);
        assert(items_of(m)[1 + count].name == encode_utf8(c.name));
        assert(items_of(m)[1 + count].nid == c.nid);
        padded_text(c.name, 0);
    }
}

/// A tree is not too deep.
pub open spec fn is_shallow(n: NodeView, depth: int) -> bool
    decreases n,
{
    depth <= MAX_DEPTH && forall|i: int|
        0 <= i < n.children.len() ==> is_shallow(#[trigger] n.children[i], depth + 1)
}

/// A tree is read as it should be where all nodes of it are.
pub proof fn listed_trees_are_read(
    sb: Superblock,
    e: Seq<u8>,
    list: Seq<NodeView>,
    n: NodeView,
    depth: int,
)
    requires
        is_shallow(n, depth),
        forall|k: int| 0 <= k < list.len() ==> reads_node(sb, e, #[trigger] list[k]),
        forall|k: int| 0 <= k < preorder(n).len() ==> list.contains(#[trigger] preorder(n)[k]),
    ensures
        reads_tree(sb, e, n, depth),
    decreases n,
{
    assert(preorder(n)[0] == n);
    assert(list.contains(preorder(n)[0]));
    assert forall|i: int| 0 <= i < n.children.len() implies reads_tree(
        sb,
        e,
        #[trigger] n.children[i],
        depth + 1,
    ) by {
        let c = n.children[i];
        assert forall|k: int| 0 <= k < preorder(c).len() implies list.contains(
            #[trigger] preorder(c)[k],
        ) by {
            let q = child_in_preorder(n.children, i, k);
            assert(preorder(n)[1 + q] == preorder(c)[k]);
        }
        listed_trees_are_read(sb, e, list, c, depth + 1);
    }
}

proof fn child_in_preorder(s: Seq<NodeView>, i: int, k: int) -> (q: int)
    requires
        0 <= i < s.len(),
        0 <= k < preorder(s[i]).len(),
    ensures
        0 <= q < all_preorder(s).len(),
        all_preorder(s)[q] == preorder(s[i])[k],
    decreases s.len(),
{
    let front = s.subrange(0, s.len() - 1);
    if i == s.len() - 1 {
        all_preorder(front).len() + k
    } else {
        assert(front[i] == s[i]);
        child_in_preorder(front, i, k)
    }
}

// ---------------------------------------------------------------------
// What a change leaves alone
// ---------------------------------------------------------------------
/// The image `e` is the image `d` but for touched bytes, and what is behind
/// the end.
pub open spec fn alike(
    d: Seq<u8>,
    touched: spec_fn(int) -> bool,
    e: Seq<u8>,
) -> bool {
    &&& d.len() <= e.len()
    &&& forall|p: int| 0 <= p < d.len() && !touched(p) ==> #[trigger] e[p] == d[p]
}

/// The inode with another mode and owner.
pub open spec fn owned_by(fi: Inode, mode: u16, uid: u32, gid: u32) -> Inode {
    Inode { mode, uid, gid, ..fi }
}

/// An inode does not rest on bytes that are touched: whatever they hold,
/// it reads the same.
pub open spec fn inode_rests(
    sb: Superblock,
    d: Seq<u8>,
    touched: spec_fn(int) -> bool,
    nid: u64,
) -> bool {
    forall|e: Seq<u8>| #[trigger]
        alike(d, touched, e) ==> inode_of(sb, e, nid) == inode_of(sb, d, nid)
}

/// The content of an inode does not rest on bytes that are touched.
pub open spec fn data_rests(
    sb: Superblock,
    d: Seq<u8>,
    touched: spec_fn(int) -> bool,
    fi: Inode,
) -> bool {
    forall|e: Seq<u8>, mode: u16, uid: u32, gid: u32|
        alike(d, touched, e) ==> #[trigger] data_of(sb, e, owned_by(fi, mode, uid, gid))
            == data_of(sb, d, fi)
}

/// The label of an inode does not rest on bytes that are touched.
pub open spec fn label_rests(
    sb: Superblock,
    d: Seq<u8>,
    touched: spec_fn(int) -> bool,
    fi: Inode,
) -> bool {
    forall|e: Seq<u8>, mode: u16, uid: u32, gid: u32|
        alike(d, touched, e) ==> #[trigger] selinux_of(
            sb,
            e,
            owned_by(fi, mode, uid, gid),
        ) == selinux_of(sb, d, fi)
}

/// The attributes that an area gives do not rest on bytes that are
/// touched.
pub open spec fn area_rests(
    sb: Superblock,
    d: Seq<u8>,
    touched: spec_fn(int) -> bool,
    area: Seq<u8>,
) -> bool {
    forall|e: Seq<u8>| #[trigger]
        alike(d, touched, e) ==> area_entries(sb, e, area) == area_entries(sb, d, area)
}

/// A label depends on where the attributes of an inode are.
pub proof fn labels_depend_on_the_place(sb: Superblock, e: Seq<u8>, a: Inode, b: Inode)
    requires
        a.nid == b.nid,
        a.inode_size == b.inode_size,
        a.xattr_size == b.xattr_size,
    ensures
        selinux_of(sb, e, a) == selinux_of(sb, e, b),
{
}

} // verus!
