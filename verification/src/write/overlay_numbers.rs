//! Edits of an EROFS image in its place: new inodes miss everything that the
//! image holds.
use super::ext4_images::own_numbers;
use super::node::{all_preorder, preorder, NodeView};
use super::overlay::{
    all_settled, arranged_tree, empty_tail, placed_content, settled_child, with_fresh,
    xattr_area_of, TailView,
};
use super::overlay_images::{fresh_numbers_stand, has_whole_slots, in_step, steps_stay_in_step};
use super::overlay_laws::{fresh_inodes_grow, placing_grows, settled_tree, tail_start};
use crate::fs::erofs::inode::inode_offset;
use crate::fs::erofs::Superblock;
use crate::math::{ceil_div, ceil_div_covers};
use vstd::prelude::*;

verus! {

/// Every node that the image holds has a number of its own, and its inode
/// starts in the image.
pub open spec fn numbers_of_the_image(sb: Superblock, d: Seq<u8>, list: Seq<NodeView>) -> bool {
    &&& forall|i: int|
        0 <= i < list.len() && (#[trigger] list[i]).nid != 0 ==> inode_offset(sb, list[i].nid)
            < d.len()
    &&& forall|i: int, j: int|
        0 <= i < j < list.len() && (#[trigger] list[i]).nid != 0 && (#[trigger] list[j]).nid != 0
            ==> list[i].nid != list[j].nid
}

/// The nodes `b` are the nodes `a` with numbers for the new ones, whose inodes
/// stand one behind the other from `from` up to `to`.
#[verifier::opaque]
spec fn numbered_behind(
    sb: Superblock,
    a: Seq<NodeView>,
    b: Seq<NodeView>,
    from: int,
    to: int,
) -> bool {
    &&& a.len() == b.len()
    &&& from <= to
    &&& forall|i: int|
        0 <= i < a.len() ==> if (#[trigger] a[i]).nid != 0 {
            b[i].nid == a[i].nid
        } else {
            from <= inode_offset(sb, b[i].nid) < to
        }
    &&& forall|i: int, j: int|
        0 <= i < j < a.len() && (#[trigger] a[i]).nid == 0 && (#[trigger] a[j]).nid == 0
            ==> inode_offset(sb, b[i].nid) < inode_offset(sb, b[j].nid)
}

proof fn numbered_parts(
    sb: Superblock,
    a: Seq<NodeView>,
    b: Seq<NodeView>,
    c: Seq<NodeView>,
    e: Seq<NodeView>,
    from: int,
    mid: int,
    to: int,
)
    requires
        numbered_behind(sb, a, b, from, mid),
        numbered_behind(sb, c, e, mid, to),
    ensures
        numbered_behind(sb, a + c, b + e, from, to),
{
    reveal(numbered_behind);
    let x = a + c;
    let y = b + e;
    assert forall|i: int| 0 <= i < x.len() implies if (#[trigger] x[i]).nid != 0 {
        y[i].nid == x[i].nid
    } else {
        from <= inode_offset(sb, y[i].nid) < to
    } by {
        if i < a.len() {
            assert(x[i] == a[i] && y[i] == b[i]);
        } else {
            assert(x[i] == c[i - a.len()] && y[i] == e[i - a.len()]);
        }
    }
    assert forall|i: int, j: int|
        0 <= i < j < x.len() && (#[trigger] x[i]).nid == 0 && (
        #[trigger] x[j]).nid == 0 implies inode_offset(sb, y[i].nid) < inode_offset(
        sb,
        y[j].nid,
    ) by {
        if j < a.len() {
            assert(x[i] == a[i] && x[j] == a[j]);
        } else if i < a.len() {
            assert(x[i] == a[i] && x[j] == c[j - a.len()]);
        } else {
            assert(x[i] == c[i - a.len()] && x[j] == c[j - a.len()]);
        }
    }
}

proof fn numbered_one(sb: Superblock, n: NodeView, m: NodeView, from: int, to: int)
    requires
        from <= to,
        n.nid != 0 ==> m.nid == n.nid,
        n.nid == 0 ==> from <= inode_offset(sb, m.nid) < to,
    ensures
        numbered_behind(sb, seq![n], seq![m], from, to),
{
    reveal(numbered_behind);
}

proof fn numbered_none(sb: Superblock, at: int)
    ensures
        numbered_behind(sb, Seq::empty(), Seq::empty(), at, at),
{
    reveal(numbered_behind);
}

proof fn numbered_step(
    sb: Superblock,
    s: Seq<NodeView>,
    done: Seq<NodeView>,
    m: NodeView,
    from: int,
    first: int,
    second: int,
    to: int,
)
    requires
        s.len() > 0,
        numbered_behind(
            sb,
            all_preorder(s.subrange(0, s.len() - 1)),
            all_preorder(done),
            from,
            first,
        ),
        first <= second,
        s[s.len() - 1].nid != 0 ==> m.nid == s[s.len() - 1].nid,
        s[s.len() - 1].nid == 0 ==> first <= inode_offset(sb, m.nid) < second,
        numbered_behind(
            sb,
            all_preorder(s[s.len() - 1].children),
            all_preorder(m.children),
            second,
            to,
        ),
    ensures
        numbered_behind(sb, all_preorder(s), all_preorder(done.push(m)), from, to),
{
    let n = s[s.len() - 1];
    let all = done.push(m);
    assert(all.subrange(0, all.len() - 1) =~= done);
    let a = all_preorder(n.children);
    let b = all_preorder(m.children);
    numbered_one(sb, n, m, first, second);
    numbered_parts(sb, seq![n], seq![m], a, b, first, second, to);
    numbered_parts(
        sb,
        all_preorder(s.subrange(0, s.len() - 1)),
        all_preorder(done),
        seq![n] + a,
        seq![m] + b,
        from,
        first,
        to,
    );
    assert(preorder(n) == seq![n] + a);
    assert(preorder(m) == seq![m] + b);
    assert(all_preorder(s) == all_preorder(s.subrange(0, s.len() - 1)) + preorder(n));
    assert(all_preorder(all) == all_preorder(done) + preorder(m));
}

proof fn settling_one_numbers(
    c: TailView,
    sb: Superblock,
    d: Seq<u8>,
    start: int,
    n: NodeView,
    parent: u64,
)
    requires
        has_whole_slots(sb),
        in_step(c, start, sb.block_size as int),
        settled_child(c, sb, d, n, parent) is Ok,
    ensures
        ({
            let (m, t) = settled_child(c, sb, d, n, parent)->Ok_0;
            &&& in_step(t, start, sb.block_size as int)
            &&& c.cursor <= t.cursor
            &&& n.nid != 0 ==> m.nid == n.nid
            &&& n.nid == 0 ==> c.cursor <= inode_offset(sb, m.nid) < t.cursor
        }),
{
    if n.nid == 0 {
        let bs = sb.block_size as int;
        let area = if n.original_nid == 0 {
            Seq::empty()
        } else {
            xattr_area_of(sb, d, n.original_nid)->Ok_0
        };
        placing_grows(c, sb, d, n);
        let (c1, raw, size) = placed_content(c, sb, d, n)->Ok_0;
        steps_stay_in_step(c, c1, start, bs);
        fresh_inodes_grow(c1, sb, n, size as u32, raw, area);
        let (c2, nid) = with_fresh(c1, sb, n, size as u32, raw, area)->Ok_0;
        steps_stay_in_step(c1, c2, start, bs);
        fresh_numbers_stand(sb, c1.cursor);
    }
}

proof fn settling_numbers(
    c: TailView,
    sb: Superblock,
    d: Seq<u8>,
    start: int,
    s: Seq<NodeView>,
    parent: u64,
)
    requires
        has_whole_slots(sb),
        in_step(c, start, sb.block_size as int),
        all_settled(c, sb, d, s, parent) is Ok,
    ensures
        ({
            let (done, t) = all_settled(c, sb, d, s, parent)->Ok_0;
            &&& in_step(t, start, sb.block_size as int)
            &&& numbered_behind(sb, all_preorder(s), all_preorder(done), c.cursor, t.cursor)
        }),
    decreases s,
{
    if s.len() > 0 {
        let front = s.subrange(0, s.len() - 1);
        let n = s[s.len() - 1];
        let (done, c1) = all_settled(c, sb, d, front, parent)->Ok_0;
        settling_numbers(c, sb, d, start, front, parent);
        let (m, c2) = settled_child(c1, sb, d, n, parent)->Ok_0;
        settling_one_numbers(c1, sb, d, start, n, parent);
        let (children, c3) = all_settled(c2, sb, d, n.children, m.nid)->Ok_0;
        settling_numbers(c2, sb, d, start, n.children, m.nid);
        let whole = NodeView { children, ..m };
        numbered_step(sb, s, done, whole, c.cursor, c1.cursor, c2.cursor, c3.cursor);
    } else {
        assert(all_preorder(s) =~= Seq::empty());
        numbered_none(sb, c.cursor);
    }
}

/// The inodes of new files stand behind everything that the image holds, each
/// behind the one in front of it. So every node of an edited tree has a number
/// of its own, where those that the image holds have.
pub proof fn new_inodes_stand_behind(sb: Superblock, d: Seq<u8>, root: NodeView)
    requires
        has_whole_slots(sb),
        root.nid != 0,
        settled_tree(sb, d, root) is Ok,
        numbers_of_the_image(sb, d, preorder(arranged_tree(root))),
    ensures
        ({
            let before = preorder(arranged_tree(root));
            let after = preorder(settled_tree(sb, d, root)->Ok_0.0);
            &&& own_numbers(after)
            &&& after.len() == before.len()
            &&& forall|k: int|
                0 <= k < before.len() ==> if (#[trigger] before[k]).nid == 0 {
                    d.len() <= inode_offset(sb, after[k].nid)
                } else {
                    after[k].nid == before[k].nid
                }
        }),
{
    let bs = sb.block_size as int;
    let start = tail_start(sb, d);
    let t = arranged_tree(root);
    let c0 = empty_tail(start);
    ceil_div_covers(d.len() as int, bs);
    vstd::arithmetic::div_mod::lemma_mod_multiples_basic(ceil_div(d.len() as int, bs), bs);
    assert(in_step(c0, start, bs));
    settling_numbers(c0, sb, d, start, t.children, t.nid);
    let (n, c) = settled_tree(sb, d, root)->Ok_0;
    let a = all_preorder(t.children);
    let b = all_preorder(n.children);
    let before = preorder(t);
    let after = preorder(n);
    assert(before == seq![t] + a);
    assert(after == seq![n] + b);
    assert(t.nid == root.nid);
    numbered_one(sb, t, n, start, start);
    numbered_parts(sb, seq![t], seq![n], a, b, start, start, c.cursor);
    reveal(numbered_behind);
    assert forall|i: int, j: int| 0 <= i < j < after.len() implies (#[trigger] after[i]).nid != (
    #[trigger] after[j]).nid by {
        let x = before[i];
        let y = before[j];
        if x.nid == 0 && y.nid == 0 {
            assert(inode_offset(sb, after[i].nid) < inode_offset(sb, after[j].nid));
        }
    }
}

} // verus!
