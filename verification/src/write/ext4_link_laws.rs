//! What the inodes of a fresh ext4 image say of the rest of it: how many
//! directory records name them, and how much room they take.
use super::blocks::Volume;
use super::ext4_arrive::inode_length;
use super::ext4_build::{ext4_image, well_numbered};
use super::ext4_groups::{descriptors, laid_out, Census, Geometry};
use super::ext4_image_laws::{images_are_finished, inode_trees_are_listed, rebuilds_are_images};
use super::ext4_images::arrived;
use super::ext4_inode::{
    blocks_in, dirs_in, inode_bytes, is_short_link, leaves_match, link_count, sector_count, Extents,
};
use super::ext4_laws::{counts_of_inodes, record_views};
use super::ext4_layout::{
    all_names_fit, all_numbers_grow, all_numbers_in_order, all_with_numbers, inode_tree,
    inodes_are_numbered, numbers_grow, numbers_in_order, record_at, records, with_numbers,
    FIRST_INODE, ROOT_INODE,
};
use super::ext4_place::Placed;
use super::ext4_plan::fresh_ext4;
use super::ext4_read_back::{
    ext4_inodes_read_back, fresh_profile, inode_is_found, listed_inode, spread_facts,
};
use super::ext4_tree_laws::{
    directory_entries_read, finished, node_extents_read, parents_fit, readable_ext4,
};
use super::extent_laws::{as_extents, roots_say_their_form};
use super::fresh_laws::holds;
use super::node::{all_preorder, preorder, NodeView};
use super::read_back::{listed, renumbered, sized};
use crate::buf::{le16, le32, le_in_window};
use crate::fs::ext4::dir::{entries_of, RawView};
use crate::fs::ext4::inode::{extents_of, inode_of, inode_offset, Extent};
use crate::fs::ext4::{superblock, Superblock};
use vstd::arithmetic::power2::pow2;
use vstd::prelude::*;

verus! {

// ---------------------------------------------------------------------
// Records of an image
// ---------------------------------------------------------------------
/// The records of a directory of an image; none where the inode is that of
/// something else.
pub open spec fn records_of(sb: Superblock, d: Seq<u8>, number: int) -> Seq<RawView> {
    match inode_of(sb, d, number) {
        Ok(x) if x.mode & 0xf000 == 0x4000 => match entries_of(sb, d, number) {
            Ok(s) => s,
            Err(_) => Seq::empty(),
        },
        _ => Seq::empty(),
    }
}

/// How many of the records name the inode.
pub open spec fn naming(s: Seq<RawView>, number: int) -> int
    decreases s.len(),
{
    if s.len() == 0 {
        0
    } else {
        naming(s.drop_last(), number) + if s.last().inode == number {
            1int
        } else {
            0
        }
    }
}

/// How many records of the directories among the inodes name the inode.
pub open spec fn references(sb: Superblock, d: Seq<u8>, inodes: Seq<int>, number: int) -> int
    decreases inodes.len(),
{
    if inodes.len() == 0 {
        0
    } else {
        references(sb, d, inodes.drop_last(), number) + naming(
            records_of(sb, d, inodes.last()),
            number,
        )
    }
}

/// The inodes in use of an image that holds so many files and directories: the
/// root directory has the number 2, the others have those from 11 on.
pub open spec fn inodes_in_use(count: int) -> Seq<int> {
    Seq::new(
        count as nat,
        |k: int|
            if k == 0 {
                2
            } else {
                10 + k
            },
    )
}

// ---------------------------------------------------------------------
// Records of a tree
// ---------------------------------------------------------------------
/// Files hold no files.
pub open spec fn only_directories_hold(n: NodeView) -> bool
    decreases n,
{
    &&& !n.is_dir() ==> n.children.len() == 0
    &&& forall|i: int| 0 <= i < n.children.len() ==> only_directories_hold(#[trigger] n.children[i])
}

spec fn one_if(b: bool) -> int {
    if b {
        1
    } else {
        0
    }
}

spec fn numbered_so(s: Seq<NodeView>, number: int) -> int
    decreases s.len(),
{
    if s.len() == 0 {
        0
    } else {
        numbered_so(s.drop_last(), number) + one_if(s.last().nid == number)
    }
}

spec fn node_refs(n: NodeView, number: int) -> int {
    if n.is_dir() {
        one_if(n.nid == number) + one_if(n.parent_nid == number) + numbered_so(n.children, number)
    } else {
        0
    }
}

spec fn list_refs(list: Seq<NodeView>, number: int) -> int
    decreases list.len(),
{
    if list.len() == 0 {
        0
    } else {
        list_refs(list.drop_last(), number) + node_refs(list.last(), number)
    }
}

proof fn refs_join(a: Seq<NodeView>, b: Seq<NodeView>, number: int)
    ensures
        list_refs(a + b, number) == list_refs(a, number) + list_refs(b, number),
    decreases b.len(),
{
    if b.len() == 0 {
        assert(a + b =~= a);
    } else {
        assert((a + b).drop_last() =~= a + b.drop_last());
        assert((a + b).last() == b.last());
        refs_join(a, b.drop_last(), number);
    }
}

proof fn first_refs(n: NodeView, rest: Seq<NodeView>, number: int)
    ensures
        list_refs(seq![n] + rest, number) == node_refs(n, number) + list_refs(rest, number),
{
    refs_join(seq![n], rest, number);
    let one = seq![n];
    assert(one.drop_last() =~= Seq::empty());
    assert(list_refs(one.drop_last(), number) == 0);
    assert(one.last() == n);
}

/// The records that a numbered tree comes to: each node inside is named as often
/// as its inode says, the uppermost one once less, and its parent once where the
/// uppermost one is a directory.
proof fn tree_refs(n: NodeView, nid: int, parent: int, next: int)
    requires
        1 <= parent <= nid < next,
        only_directories_hold(n),
        with_numbers(n, nid, parent, next).1 <= 0x1_0000_0000,
    ensures
        ({
            let (t, end) = with_numbers(n, nid, parent, next);
            let list = preorder(t);
            &&& list_refs(list, nid) == link_count(t) - 1 + one_if(parent == nid && t.is_dir())
            &&& parent < nid ==> list_refs(list, parent) == one_if(t.is_dir())
            &&& forall|i: int|
                i != nid && i != parent && !(next <= i < end) ==> #[trigger] list_refs(list, i) == 0
            &&& forall|k: int|
                1 <= k < list.len() ==> list_refs(list, (#[trigger] list[k]).nid as int)
                    == link_count(list[k])
        }),
    decreases n, 0int,
{
    let (t, end) = with_numbers(n, nid, parent, next);
    let list = preorder(t);
    let below = all_preorder(t.children);
    assert(n.children.take(n.children.len() as int) =~= n.children);
    all_numbers_grow(n.children, nid, next, n.children.len() as int);
    trees_refs(n.children, nid, next);
    all_numbers_in_order(n.children, nid, next);
    assert(t.children == all_with_numbers(n.children, nid, next).0);
    assert(list == seq![t] + below);
    assert(t.nid == nid && t.parent_nid == parent);
    first_refs(t, below, nid);
    first_refs(t, below, parent);
    if !t.is_dir() {
        assert(n.children =~= Seq::empty());
        assert(t.children =~= Seq::empty());
        assert(below =~= Seq::empty());
    }
    assert forall|i: int| i != nid && i != parent && !(next <= i < end) implies #[trigger] list_refs(
        list,
        i,
    ) == 0 by {
        first_refs(t, below, i);
    }
    assert forall|k: int| 1 <= k < list.len() implies list_refs(
        list,
        (#[trigger] list[k]).nid as int,
    ) == link_count(list[k]) by {
        assert(list[k] == below[k - 1]);
        first_refs(t, below, list[k].nid as int);
    }
}

proof fn trees_refs(s: Seq<NodeView>, parent: int, next: int)
    requires
        1 <= parent < next,
        forall|i: int| 0 <= i < s.len() ==> only_directories_hold(#[trigger] s[i]),
        all_with_numbers(s, parent, next).1 <= 0x1_0000_0000,
    ensures
        ({
            let (t, end) = all_with_numbers(s, parent, next);
            let list = all_preorder(t);
            &&& numbered_so(t, parent) == 0
            &&& list_refs(list, parent) == dirs_in(t)
            &&& forall|i: int|
                i != parent && !(next <= i < end) ==> #[trigger] list_refs(list, i) + numbered_so(
                    t,
                    i,
                ) == 0 && numbered_so(t, i) == 0
            &&& forall|k: int|
                0 <= k < list.len() ==> list_refs(list, (#[trigger] list[k]).nid as int)
                    + numbered_so(t, list[k].nid as int) == link_count(list[k])
        }),
    decreases s, 1int,
{
    let (t, end) = all_with_numbers(s, parent, next);
    let list = all_preorder(t);
    if s.len() == 0 {
        assert(t =~= Seq::empty());
        assert(list =~= Seq::empty());
    } else {
        let front = s.subrange(0, s.len() - 1);
        let last = s[s.len() - 1];
        let (ft, b) = all_with_numbers(front, parent, next);
        numbers_grow(last, b, parent, b + 1);
        assert forall|i: int| 0 <= i < front.len() implies only_directories_hold(
            #[trigger] front[i],
        ) by {
            assert(front[i] == s[i]);
        }
        assert(only_directories_hold(last));
        assert(front.take(front.len() as int) =~= front);
        all_numbers_grow(front, parent, next, front.len() as int);
        trees_refs(front, parent, next);
        tree_refs(last, b, parent, b + 1);
        all_numbers_in_order(front, parent, next);
        numbers_in_order(last, b, parent, b + 1);
        let lt = with_numbers(last, b, parent, b + 1).0;
        assert(t.subrange(0, t.len() - 1) =~= ft);
        assert(t.drop_last() =~= ft);
        assert(t.last() == lt);
        let fl = all_preorder(ft);
        let ll = preorder(lt);
        assert(list == fl + ll);
        assert forall|i: int| #[trigger] list_refs(list, i) == list_refs(fl, i) + list_refs(ll, i) by {
            refs_join(fl, ll, i);
        }
        assert forall|i: int| i != parent && !(next <= i < end) implies #[trigger] list_refs(
            list,
            i,
        ) + numbered_so(t, i) == 0 && numbered_so(t, i) == 0 by {
            assert(list_refs(fl, i) + numbered_so(ft, i) == 0);
            assert(list_refs(ll, i) == 0);
        }
        assert forall|k: int| 0 <= k < list.len() implies list_refs(
            list,
            (#[trigger] list[k]).nid as int,
        ) + numbered_so(t, list[k].nid as int) == link_count(list[k]) by {
            let i = list[k].nid as int;
            if k < fl.len() {
                assert(list[k] == fl[k]);
                assert(next <= i < b);
                assert(list_refs(ll, i) == 0);
            } else {
                let j = k - fl.len();
                assert(list[k] == ll[j]);
                assert(b <= i);
                assert(list_refs(fl, i) + numbered_so(ft, i) == 0);
            }
        }
    }
}

/// The records of a directory name inodes as its node says.
proof fn records_name(n: NodeView, number: int, count: int)
    requires
        n.is_dir(),
        0 <= count <= n.children.len(),
        n.nid <= u32::MAX,
        n.parent_nid <= u32::MAX,
        forall|i: int| 0 <= i < n.children.len() ==> (#[trigger] n.children[i]).nid <= u32::MAX,
    ensures
        naming(record_views(records(n), 0).take(2 + count), number) == one_if(n.nid == number)
            + one_if(n.parent_nid == number) + numbered_so(n.children.take(count), number),
    decreases count,
{
    let s = record_views(records(n), 0);
    let t = s.take(2 + count);
    assert forall|i: int| 0 <= i < s.len() implies (#[trigger] s[i]).inode == record_at(
        n,
        i,
    ).inode by {
        assert(records(n)[i] == record_at(n, i));
    }
    if count == 0 {
        let u = t.drop_last();
        assert(u.drop_last() =~= Seq::empty());
        assert(naming(u.drop_last(), number) == 0);
        assert(u.last() == s[0]);
        assert(t.last() == s[1]);
        assert(s[0].inode == n.nid);
        assert(s[1].inode == n.parent_nid);
        assert(naming(u, number) == one_if(n.nid == number));
        assert(n.children.take(0) =~= Seq::empty());
    } else {
        assert(t.drop_last() =~= s.take(2 + (count - 1)));
        assert(t.last() == s[1 + count]);
        assert(s[1 + count].inode == n.children[count - 1].nid);
        let c = n.children.take(count);
        assert(c.drop_last() =~= n.children.take(count - 1));
        assert(c.last() == n.children[count - 1]);
        records_name(n, number, count - 1);
    }
}

// ---------------------------------------------------------------------
// Images
// ---------------------------------------------------------------------
/// What the laws need of a finished image.
spec fn numbered_image(
    d: Seq<u8>,
    v: Volume,
    c: Census,
    p: Superblock,
    shared: bool,
    q: Seq<Placed>,
    m: Seq<int>,
    l: Seq<int>,
) -> bool {
    &&& finished(d, v, c, p, shared, q, m, l)
    &&& c.x.block <= 32768
    &&& parents_fit(c.list)
    &&& forall|k: int| 0 <= k < c.list.len() ==> listed(c.list, #[trigger] c.list[k])
    &&& forall|k: int|
        0 <= k < c.list.len() ==> 1 <= (#[trigger] c.list[k]).nid <= u32::MAX
            && c.list[k].parent_nid >= 1
}

proof fn records_are_read(
    d: Seq<u8>,
    v: Volume,
    c: Census,
    p: Superblock,
    shared: bool,
    q: Seq<Placed>,
    m: Seq<int>,
    l: Seq<int>,
    k: int,
    number: int,
)
    requires
        numbered_image(d, v, c, p, shared, q, m, l),
        0 <= k < c.list.len(),
    ensures
        naming(records_of(fresh_profile(c.x, p, shared), d, c.list[k].nid as int), number)
            == node_refs(c.list[k], number),
{
    let n = c.list[k];
    ext4_inodes_read_back(d, c, p, shared, q, m, l, k);
    if n.is_dir() {
        assert(listed(c.list, n));
        assert(1 <= n.nid);
        directory_entries_read(d, v, c, p, shared, q, m, l, k);
        assert forall|i: int| 0 <= i < n.children.len() implies (#[trigger] n.children[i]).nid
            <= u32::MAX by {
            assert(listed(c.list, n.children[i]));
            let j = choose|j: int| 0 <= j < c.list.len() && c.list[j] == n.children[i];
            assert(c.list[j].nid >= 1);
        }
        let s = record_views(records(n), 0);
        records_name(n, number, n.children.len() as int);
        assert(s.take(2 + n.children.len() as int) =~= s);
        assert(n.children.take(n.children.len() as int) =~= n.children);
    }
}

proof fn references_are_counted(
    d: Seq<u8>,
    v: Volume,
    c: Census,
    p: Superblock,
    shared: bool,
    q: Seq<Placed>,
    m: Seq<int>,
    l: Seq<int>,
    count: int,
    number: int,
)
    requires
        numbered_image(d, v, c, p, shared, q, m, l),
        0 <= count <= c.list.len(),
        forall|k: int|
            0 <= k < c.list.len() ==> (#[trigger] c.list[k]).nid == inodes_in_use(
                c.list.len() as int,
            )[k],
    ensures
        references(fresh_profile(c.x, p, shared), d, inodes_in_use(count), number) == list_refs(
            c.list.take(count),
            number,
        ),
    decreases count,
{
    if count > 0 {
        let u = inodes_in_use(count);
        assert(u.drop_last() =~= inodes_in_use(count - 1));
        let t = c.list.take(count);
        assert(t.drop_last() =~= c.list.take(count - 1));
        assert(t.last() == c.list[count - 1]);
        references_are_counted(d, v, c, p, shared, q, m, l, count - 1, number);
        records_are_read(d, v, c, p, shared, q, m, l, count - 1, number);
        assert(u.last() == c.list[count - 1].nid);
    }
}

/// The sum of the lengths of extents.
pub open spec fn blocks_of_extents(s: Seq<Extent>) -> int
    decreases s.len(),
{
    if s.len() == 0 {
        0
    } else {
        blocks_of_extents(s.drop_last()) + s.last().length
    }
}

proof fn blocks_are_the_same(s: Extents)
    ensures
        blocks_of_extents(as_extents(s)) == blocks_in(s),
    decreases s.len(),
{
    if s.len() > 0 {
        blocks_are_the_same(s.drop_last());
        assert(as_extents(s).drop_last() =~= as_extents(s.drop_last()));
    }
}

/// The inode has as many links as there are directory records in the whole image
/// that name it, those called `.` and `..` among them: the 16-bit number at byte
/// 26 of its body.
pub open spec fn links_are_right(sb: Superblock, d: Seq<u8>, count: int, number: int) -> bool {
    let r = references(sb, d, inodes_in_use(count), number);
    inode_offset(sb, d, number) matches Ok(at) && (r <= 0xffff ==> le16(d, at + 26) == r)
}

/// The inode says how much room its file takes, in sectors of 512 bytes: the
/// blocks that its extents map, and those that hold the extents. It is the 32-bit
/// number at byte 28 of its body. A link in the inode itself takes none.
pub open spec fn room_is_right(sb: Superblock, d: Seq<u8>, number: int) -> bool {
    inode_of(sb, d, number) matches Ok(x) && inode_offset(sb, d, number) matches Ok(at) && {
        let s = extents_of(
            d,
            sb.block_size as int,
            x.block,
            le16(x.block, 6) as int,
            le16(x.block, 2) as int,
        );
        let inner = if le16(x.block, 6) == 0 {
            0
        } else {
            le16(x.block, 2) as int
        };
        &&& x.flags == 0x8_0000 ==> (s matches Ok(e) && {
            let sectors = (blocks_of_extents(e) + inner) * (sb.block_size as int / 512);
            sectors <= 0xffff_ffff ==> le32(d, at + 28) == sectors
        })
        &&& x.flags == 0 ==> le32(d, at + 28) == 0
        &&& x.flags == 0x8_0000 || x.flags == 0
    }
}

/// The body of the inode of a node stands where it is found.
proof fn inode_stands(
    d: Seq<u8>,
    v: Volume,
    c: Census,
    p: Superblock,
    shared: bool,
    q: Seq<Placed>,
    m: Seq<int>,
    l: Seq<int>,
    k: int,
)
    requires
        finished(d, v, c, p, shared, q, m, l),
        0 <= k < c.list.len(),
    ensures
        ({
            let n = c.list[k];
            let sectors = sector_count(q[k].extents, q[k].leaves.len() as int, c.x.block as int);
            &&& inode_offset(fresh_profile(c.x, p, shared), d, n.nid as int) matches Ok(at) && {
                &&& 0 <= link_count(n) <= u16::MAX ==> le16(d, at + 26) == link_count(n)
                &&& is_short_link(n) ==> le32(d, at + 28) == 0
                &&& !is_short_link(n) && 0 <= sectors <= u32::MAX ==> le32(d, at + 28) == sectors
            }
        }),
{
    let n = c.list[k];
    let bs = c.x.block as int;
    spread_facts(c.x, c.list, q, m, l, k);
    let raw = inode_bytes(n, q[k].size, q[k].extents, q[k].leaves, bs, c.x.inode_size as int);
    let at = super::ext4_build::inode_offset(c.x, n.nid);
    assert(holds(d, c.x.descriptors_at(), descriptors(c, c.x.groups())) && holds(d, at, raw)) by {
        reveal(arrived);
    }
    inode_is_found(d, c, p, shared, k);
    inode_length(c.x, n, q[k]);
    counts_of_inodes(n, q[k].size, q[k].extents, q[k].leaves, bs, c.x.inode_size as int);
    assert(raw == d.subrange(at, at + raw.len()));
    le_in_window(d, at, raw, 26);
    le_in_window(d, at, raw, 28);
}

proof fn links_are_counted(
    d: Seq<u8>,
    v: Volume,
    c: Census,
    p: Superblock,
    shared: bool,
    q: Seq<Placed>,
    m: Seq<int>,
    l: Seq<int>,
    k: int,
)
    requires
        numbered_image(d, v, c, p, shared, q, m, l),
        0 <= k < c.list.len(),
        forall|j: int|
            0 <= j < c.list.len() ==> (#[trigger] c.list[j]).nid == inodes_in_use(
                c.list.len() as int,
            )[j],
        list_refs(c.list, c.list[k].nid as int) == link_count(c.list[k]),
    ensures
        links_are_right(
            fresh_profile(c.x, p, shared),
            d,
            c.list.len() as int,
            c.list[k].nid as int,
        ),
{
    let count = c.list.len() as int;
    references_are_counted(d, v, c, p, shared, q, m, l, count, c.list[k].nid as int);
    assert(c.list.take(count) =~= c.list);
    inode_stands(d, v, c, p, shared, q, m, l, k);
    directories_are_counted(c.list[k].children);
}

proof fn directories_are_counted(s: Seq<NodeView>)
    ensures
        0 <= dirs_in(s),
    decreases s.len(),
{
    if s.len() > 0 {
        directories_are_counted(s.drop_last());
    }
}

proof fn room_is_counted(
    d: Seq<u8>,
    v: Volume,
    c: Census,
    p: Superblock,
    shared: bool,
    q: Seq<Placed>,
    m: Seq<int>,
    l: Seq<int>,
    k: int,
)
    requires
        finished(d, v, c, p, shared, q, m, l),
        0 <= k < c.list.len(),
    ensures
        room_is_right(fresh_profile(c.x, p, shared), d, c.list[k].nid as int),
{
    let n = c.list[k];
    ext4_inodes_read_back(d, c, p, shared, q, m, l, k);
    inode_stands(d, v, c, p, shared, q, m, l, k);
    if !is_short_link(n) {
        assert(1024 <= c.x.block <= 65536 && leaves_match(
            q[k].extents,
            q[k].leaves,
            c.x.block as int,
        )) by {
            spread_facts(c.x, c.list, q, m, l, k);
        }
        node_extents_read(d, v, c, p, shared, q, m, l, k);
        blocks_are_the_same(q[k].extents);
        roots_say_their_form(
            q[k].extents,
            q[k].leaves,
            c.x.block as int,
            listed_inode(c.x, n, q[k]).block,
        );
        sectors_are_natural(q[k].extents, q[k].leaves.len() as int, c.x.block as int);
    }
}

proof fn sectors_are_natural(s: Extents, leaves: int, block: int)
    requires
        0 <= leaves,
        0 <= block,
    ensures
        0 <= sector_count(s, leaves, block),
{
    blocks_are_natural(s);
    assert((blocks_in(s) + leaves) * (block / 512) >= 0) by (nonlinear_arith)
        requires
            blocks_in(s) + leaves >= 0,
            block / 512 >= 0,
    ;
}

proof fn blocks_are_natural(s: Extents)
    ensures
        0 <= blocks_in(s),
    decreases s.len(),
{
    if s.len() > 0 {
        blocks_are_natural(s.drop_last());
    }
}

/// The nodes of a tree with inode numbers are named as often as their inodes say.
proof fn tree_is_named(root: NodeView, k: int)
    requires
        inode_tree(root) is Ok,
        only_directories_hold(root),
        root.is_dir(),
        0 <= k < preorder(inode_tree(root)->Ok_0).len(),
    ensures
        ({
            let list = preorder(inode_tree(root)->Ok_0);
            list_refs(list, list[k].nid as int) == link_count(list[k])
        }),
{
    tree_refs(root, ROOT_INODE as int, ROOT_INODE as int, FIRST_INODE as int);
    let t = inode_tree(root)->Ok_0;
    assert(t.is_dir());
    assert(preorder(t)[0] == t);
}

proof fn readable_trees_hold(n: NodeView, depth: int)
    requires
        readable_ext4(n, depth),
    ensures
        only_directories_hold(n),
    decreases n,
{
    assert forall|i: int| 0 <= i < n.children.len() implies only_directories_hold(
        #[trigger] n.children[i],
    ) by {
        assert(readable_ext4(n.children[i], depth + 1));
        readable_trees_hold(n.children[i], depth + 1);
    }
}

proof fn lists_are_listed(list: Seq<NodeView>, n: NodeView)
    requires
        listed(list, n),
    ensures
        forall|k: int| 0 <= k < preorder(n).len() ==> listed(list, #[trigger] preorder(n)[k]),
    decreases n, 0int,
{
    all_are_listed(list, n.children);
    assert forall|k: int| 0 <= k < preorder(n).len() implies listed(
        list,
        #[trigger] preorder(n)[k],
    ) by {
        if k > 0 {
            assert(preorder(n)[k] == all_preorder(n.children)[k - 1]);
        }
    }
}

proof fn all_are_listed(list: Seq<NodeView>, s: Seq<NodeView>)
    requires
        forall|i: int| 0 <= i < s.len() ==> listed(list, #[trigger] s[i]),
    ensures
        forall|k: int| 0 <= k < all_preorder(s).len() ==> listed(list, #[trigger] all_preorder(s)[k]),
    decreases s, 1int,
{
    if s.len() > 0 {
        let front = s.subrange(0, s.len() - 1);
        assert forall|i: int| 0 <= i < front.len() implies listed(list, #[trigger] front[i]) by {
            assert(front[i] == s[i]);
        }
        all_are_listed(list, front);
        lists_are_listed(list, s[s.len() - 1]);
        let a = all_preorder(front);
        assert forall|k: int| 0 <= k < all_preorder(s).len() implies listed(
            list,
            #[trigger] all_preorder(s)[k],
        ) by {
            if k < a.len() {
                assert(all_preorder(s)[k] == a[k]);
            } else {
                assert(all_preorder(s)[k] == preorder(s[s.len() - 1])[k - a.len()]);
            }
        }
    }
}

/// The inodes of a fresh ext4 image say what is true of it: each has as many
/// links as there are directory records in the whole image that name it, and
/// takes as many sectors as its blocks come to.
pub proof fn inodes_say_what_is_true(
    v: Volume,
    root: NodeView,
    p: Superblock,
    total: int,
    shared: bool,
    bits: nat,
    k: int,
)
    requires
        laid_out(p) is Ok,
        10 <= bits <= 15,
        p.block_size == pow2(bits),
        1 <= total,
        sized(v),
        root.is_dir(),
        readable_ext4(root, 0),
        inode_tree(root) is Ok,
        all_names_fit(preorder(inode_tree(root)->Ok_0)),
        well_numbered(preorder(inode_tree(root)->Ok_0), Geometry::of(p, total)),
        ext4_image(v, preorder(inode_tree(root)->Ok_0), p, total, shared) is Ok,
        0 <= k < preorder(root).len(),
    ensures
        ({
            let d = ext4_image(v, preorder(inode_tree(root)->Ok_0), p, total, shared)->Ok_0;
            let count = preorder(root).len() as int;
            superblock(d) matches Ok(sb) && links_are_right(sb, d, count, inodes_in_use(count)[k])
                && room_is_right(sb, d, inodes_in_use(count)[k])
        }),
{
    let tree = inode_tree(root)->Ok_0;
    let list = preorder(tree);
    inode_trees_are_listed(root);
    inodes_are_numbered(root);
    readable_trees_hold(root, 0);
    renumbered_lengths(tree, root);
    let d = ext4_image(v, list, p, total, shared)->Ok_0;
    let (c, q, m, l) = images_are_finished(v, root, p, total, shared, bits);
    tree_is_named(root, k);
    lists_are_listed(list, tree);
    parents_are_positive(root);
    assert(numbered_image(d, v, c, p, shared, q, m, l));
    links_are_counted(d, v, c, p, shared, q, m, l, k);
    room_is_counted(d, v, c, p, shared, q, m, l, k);
}

/// Giving out numbers keeps the number of nodes.
pub proof fn renumbered_lengths(t: NodeView, n: NodeView)
    requires
        renumbered(t, n),
    ensures
        preorder(t).len() == preorder(n).len(),
    decreases n, 0int,
{
    all_renumbered_lengths(t.children, n.children);
}

proof fn all_renumbered_lengths(t: Seq<NodeView>, s: Seq<NodeView>)
    requires
        t.len() == s.len(),
        forall|i: int| 0 <= i < s.len() ==> renumbered(t[i], #[trigger] s[i]),
    ensures
        all_preorder(t).len() == all_preorder(s).len(),
    decreases s, 1int,
{
    if s.len() > 0 {
        let a = t.subrange(0, t.len() - 1);
        let b = s.subrange(0, s.len() - 1);
        assert forall|i: int| 0 <= i < b.len() implies renumbered(a[i], #[trigger] b[i]) by {
            assert(b[i] == s[i]);
            assert(a[i] == t[i]);
        }
        all_renumbered_lengths(a, b);
        assert(renumbered(t[s.len() - 1], s[s.len() - 1]));
        renumbered_lengths(t[t.len() - 1], s[s.len() - 1]);
    }
}

proof fn parents_are_positive(root: NodeView)
    requires
        inode_tree(root) is Ok,
    ensures
        forall|k: int|
            0 <= k < preorder(inode_tree(root)->Ok_0).len() ==> (#[trigger] preorder(
                inode_tree(root)->Ok_0,
            )[k]).parent_nid >= 1,
{
    tree_parents(root, ROOT_INODE as int, ROOT_INODE as int, FIRST_INODE as int);
}

proof fn tree_parents(n: NodeView, nid: int, parent: int, next: int)
    requires
        1 <= parent <= u32::MAX,
        1 <= nid <= u32::MAX,
        1 <= next,
        with_numbers(n, nid, parent, next).1 <= 0x1_0000_0000,
    ensures
        forall|k: int|
            0 <= k < preorder(with_numbers(n, nid, parent, next).0).len() ==> (#[trigger] preorder(
                with_numbers(n, nid, parent, next).0,
            )[k]).parent_nid >= 1,
    decreases n, 0int,
{
    let t = with_numbers(n, nid, parent, next).0;
    trees_parents(n.children, nid, next);
    assert forall|k: int| 0 <= k < preorder(t).len() implies (#[trigger] preorder(
        t,
    )[k]).parent_nid >= 1 by {
        if k > 0 {
            assert(preorder(t)[k] == all_preorder(t.children)[k - 1]);
        }
    }
}

proof fn trees_parents(s: Seq<NodeView>, parent: int, next: int)
    requires
        1 <= parent <= u32::MAX,
        1 <= next,
        all_with_numbers(s, parent, next).1 <= 0x1_0000_0000,
    ensures
        next <= all_with_numbers(s, parent, next).1,
        forall|k: int|
            0 <= k < all_preorder(all_with_numbers(s, parent, next).0).len() ==> (
            #[trigger] all_preorder(all_with_numbers(s, parent, next).0)[k]).parent_nid >= 1,
    decreases s, 1int,
{
    let (t, end) = all_with_numbers(s, parent, next);
    if s.len() > 0 {
        let front = s.subrange(0, s.len() - 1);
        let last = s[s.len() - 1];
        let b = all_with_numbers(front, parent, next);
        numbers_grow(last, b.1, parent, b.1 + 1);
        trees_parents(front, parent, next);
        tree_parents(last, b.1, parent, b.1 + 1);
        assert(t.subrange(0, t.len() - 1) =~= b.0);
        let a = all_preorder(b.0);
        let lt = with_numbers(last, b.1, parent, b.1 + 1).0;
        assert(all_preorder(t) == a + preorder(lt));
        assert forall|k: int| 0 <= k < all_preorder(t).len() implies (#[trigger] all_preorder(
            t,
        )[k]).parent_nid >= 1 by {
            if k < a.len() {
                assert(all_preorder(t)[k] == a[k]);
            } else {
                assert(all_preorder(t)[k] == preorder(lt)[k - a.len()]);
            }
        }
    }
}

/// The inodes of a rebuilt ext4 image say what is true of it.
pub proof fn rebuilt_inodes_say_what_is_true(
    v: Volume,
    root: NodeView,
    p: Superblock,
    shared: bool,
    reserve_mb: u64,
    keep: bool,
    compact: bool,
    bits: nat,
    k: int,
)
    requires
        10 <= bits <= 15,
        p.block_size == pow2(bits),
        sized(v),
        root.is_dir(),
        readable_ext4(root, 0),
        fresh_ext4(v, root, p, shared, reserve_mb, keep, compact) is Ok,
        0 <= k < preorder(root).len(),
    ensures
        ({
            let d = fresh_ext4(v, root, p, shared, reserve_mb, keep, compact)->Ok_0;
            let count = preorder(root).len() as int;
            superblock(d) matches Ok(sb) && links_are_right(sb, d, count, inodes_in_use(count)[k])
                && room_is_right(sb, d, inodes_in_use(count)[k])
        }),
{
    let end = rebuilds_are_images(v, root, p, shared, reserve_mb, keep, compact);
    inodes_say_what_is_true(v, root, p, end, shared, bits, k);
}

} // verus!
