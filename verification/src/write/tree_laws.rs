//! What operations on whole trees do to every directory of them: entries are
//! put by name and say what they are, special files are left out of conversions,
//! and a tree is compressed where a file of it is.
use super::convert::{all_pruned, exported, pruned, without_lost_found};
use super::edit::ActionView;
use super::ext4_layout::{records, Record};
use super::layout::{items_of, Item};
use super::node::{all_preorder, preorder, sorted_nodes, sorting_keeps_the_nodes, NodeView};
use super::overlay::has_explicit_context;
use super::patch::retouched_image;
use super::route::{
    all_touch, any_packed, edit_plan, edited, has_packed, only_touches, rebuilt, Output,
};
use crate::error::Fault;
use crate::fs::erofs::codec::Algo;
use crate::fs::erofs::Superblock;
use crate::text::{bytes_less, text_less};
use vstd::prelude::*;
use vstd::utf8::encode_utf8;

verus! {

// ---------------------------------------------------------------------
// Order
// ---------------------------------------------------------------------
/// Names are ordered by the first byte in which they differ; a name comes
/// before the longer ones that start with it.
pub proof fn first_differing_bytes_decide(a: Seq<u8>, b: Seq<u8>, k: int)
    requires
        0 <= k <= a.len(),
        k <= b.len(),
        forall|i: int| 0 <= i < k ==> #[trigger] a[i] == b[i],
    ensures
        k < a.len() && k < b.len() && a[k] < b[k] ==> bytes_less(a, b) && !bytes_less(b, a),
        k == a.len() && k < b.len() ==> bytes_less(a, b) && !bytes_less(b, a),
        k == a.len() && k == b.len() ==> !bytes_less(a, b) && !bytes_less(b, a),
    decreases k,
{
    if k > 0 {
        assert(a[0] == b[0]);
        assert forall|i: int| 0 <= i < k - 1 implies #[trigger] a.drop_first()[i]
            == b.drop_first()[i] by {
            assert(a[i + 1] == b[i + 1]);
        }
        first_differing_bytes_decide(a.drop_first(), b.drop_first(), k - 1);
    }
}

/// Sorting keeps the entries of a directory and puts them by the bytes of their
/// names: of two entries, the first has the lesser byte where the names differ
/// first, or its name starts the other.
pub proof fn directories_are_put_by_name(s: Seq<NodeView>, i: int, j: int, k: int)
    requires
        0 <= i < j < sorted_nodes(s).len(),
        0 <= k <= encode_utf8(sorted_nodes(s)[i].name).len(),
        k <= encode_utf8(sorted_nodes(s)[j].name).len(),
        forall|q: int|
            0 <= q < k ==> #[trigger] encode_utf8(sorted_nodes(s)[i].name)[q] == encode_utf8(
                sorted_nodes(s)[j].name,
            )[q],
    ensures
        k < encode_utf8(sorted_nodes(s)[i].name).len() && k < encode_utf8(
            sorted_nodes(s)[j].name,
        ).len() ==> encode_utf8(sorted_nodes(s)[i].name)[k] <= encode_utf8(
            sorted_nodes(s)[j].name,
        )[k],
        k == encode_utf8(sorted_nodes(s)[j].name).len() ==> k == encode_utf8(
            sorted_nodes(s)[i].name,
        ).len(),
        sorted_nodes(s).to_multiset() == s.to_multiset(),
{
    let r = sorted_nodes(s);
    sorting_keeps_the_nodes(s);
    let a = encode_utf8(r[i].name);
    let b = encode_utf8(r[j].name);
    assert(!text_less(r[j].name, r[i].name));
    assert forall|q: int| 0 <= q < k implies #[trigger] b[q] == a[q] by {
        assert(a[q] == b[q]);
    }
    first_differing_bytes_decide(b, a, k);
}

// ---------------------------------------------------------------------
// Entries
// ---------------------------------------------------------------------
/// The entries of a directory are itself, its parent and its children, in this
/// order. In an EROFS image each says whether it is a directory.
pub proof fn entries_say_what_is_a_directory(n: NodeView, i: int)
    requires
        0 <= i < n.children.len(),
    ensures
        items_of(n).len() == n.children.len() + 2,
        items_of(n)[0] == (Item { nid: n.nid, name: encode_utf8("."@), kind: 2 }),
        items_of(n)[1] == (Item { nid: n.parent_nid, name: encode_utf8(".."@), kind: 2 }),
        items_of(n)[i + 2].nid == n.children[i].nid,
        items_of(n)[i + 2].name == encode_utf8(n.children[i].name),
        items_of(n)[i + 2].kind == 2 <==> n.children[i].mode & 0xf000 == 0x4000,
{
}

/// In an ext4 image every entry says of what kind the file is: 2 stands for a
/// directory, 7 for a symbolic link, 5 and 6 for character and block devices, 3
/// for a pipe, 4 for a socket, and 1 for everything else. The number is that of
/// the inode.
pub proof fn records_say_the_kind(n: NodeView, i: int)
    requires
        0 <= i < n.children.len(),
    ensures
        records(n).len() == n.children.len() + 2,
        records(n)[0] == (Record { inode: n.nid as u32, kind: 2, name: seq![46u8] }),
        records(n)[1] == (Record { inode: n.parent_nid as u32, kind: 2, name: seq![46u8, 46u8] }),
        records(n)[i + 2].inode == n.children[i].nid as u32,
        records(n)[i + 2].name == encode_utf8(n.children[i].name),
        records(n)[i + 2].kind == 2 <==> n.children[i].mode & 0xf000 == 0x4000,
        records(n)[i + 2].kind == 7 <==> n.children[i].mode & 0xf000 == 0xa000,
        records(n)[i + 2].kind == 5 <==> n.children[i].mode & 0xf000 == 0x2000,
        records(n)[i + 2].kind == 6 <==> n.children[i].mode & 0xf000 == 0x6000,
        records(n)[i + 2].kind == 3 <==> n.children[i].mode & 0xf000 == 0x1000,
        records(n)[i + 2].kind == 4 <==> n.children[i].mode & 0xf000 == 0xc000,
        n.children[i].mode & 0xf000 == 0x8000 ==> records(n)[i + 2].kind == 1,
{
}

// ---------------------------------------------------------------------
// Conversions
// ---------------------------------------------------------------------
/// Whether a mode is that of a file, a directory or a symbolic link, or has no
/// kind.
pub open spec fn stays(mode: u16) -> bool {
    mode & 0xf000 == 0x8000 || mode & 0xf000 == 0x4000 || mode & 0xf000 == 0xa000 || mode & 0xf000
        == 0
}

/// A conversion to EROFS leaves out special files, whatever directory they are
/// in, and keeps everything else in its order.
pub proof fn special_files_are_left_out(s: Seq<NodeView>)
    ensures
        all_pruned(s) == s.filter(|c: NodeView| stays(c.mode)).map_values(
            |c: NodeView| NodeView { children: all_pruned(c.children), ..c },
        ),
    decreases s.len(),
{
    reveal(Seq::filter);
    let keep = |c: NodeView| stays(c.mode);
    let below = |c: NodeView| NodeView { children: all_pruned(c.children), ..c };
    if s.len() > 0 {
        let front = s.drop_last();
        assert(front =~= s.subrange(0, s.len() - 1));
        special_files_are_left_out(front);
        assert(pruned(s.last()) == below(s.last()));
        if keep(s.last()) {
            assert(front.filter(keep).push(s.last()).map_values(below) =~= front.filter(
                keep,
            ).map_values(below).push(below(s.last())));
        }
    } else {
        assert(s.filter(keep).map_values(below) =~= Seq::empty());
    }
}

/// A conversion to EROFS also leaves out the directory `/lost+found`, but no
/// file of that name, and none that is further down.
pub proof fn lost_and_found_is_left_out(root: NodeView)
    ensures
        without_lost_found(root.children) == root.children.filter(
            |c: NodeView| !(c.mode & 0xf000 == 0x4000 && c.name == "lost+found"@),
        ),
        exported(root) == (NodeView {
            children: all_pruned(
                root.children.filter(
                    |c: NodeView| !(c.mode & 0xf000 == 0x4000 && c.name == "lost+found"@),
                ),
            ),
            ..root
        }),
{
    others_stay(root.children);
}

proof fn others_stay(s: Seq<NodeView>)
    ensures
        without_lost_found(s) == s.filter(
            |c: NodeView| !(c.mode & 0xf000 == 0x4000 && c.name == "lost+found"@),
        ),
    decreases s.len(),
{
    reveal(Seq::filter);
    if s.len() > 0 {
        others_stay(s.drop_last());
    } else {
        assert(without_lost_found(s) =~= s);
    }
}

// ---------------------------------------------------------------------
// Compression
// ---------------------------------------------------------------------
/// A tree counts as compressed exactly where one of its nodes is stored
/// compressed, at whatever depth.
pub proof fn compressed_trees_hold_a_compressed_file(n: NodeView)
    ensures
        has_packed(n) <==> exists|i: int|
            0 <= i < preorder(n).len() && (#[trigger] preorder(n)[i]).layout == 3,
    decreases n, 1nat,
{
    some_are_compressed(n.children);
    let s = all_preorder(n.children);
    let p = preorder(n);
    assert(p[0] == n);
    if any_packed(n.children) {
        let i = choose|i: int| 0 <= i < s.len() && (#[trigger] s[i]).layout == 3;
        assert(p[i + 1] == s[i]);
    }
    if exists|i: int| 0 <= i < p.len() && (#[trigger] p[i]).layout == 3 {
        let i = choose|i: int| 0 <= i < p.len() && (#[trigger] p[i]).layout == 3;
        if i > 0 {
            assert(s[i - 1] == p[i]);
        }
    }
}

proof fn some_are_compressed(s: Seq<NodeView>)
    ensures
        any_packed(s) <==> exists|i: int|
            0 <= i < all_preorder(s).len() && (#[trigger] all_preorder(s)[i]).layout == 3,
    decreases s, 0nat,
{
    if s.len() > 0 {
        let front = s.subrange(0, s.len() - 1);
        let last = s[s.len() - 1];
        some_are_compressed(front);
        compressed_trees_hold_a_compressed_file(last);
        let f = all_preorder(front);
        let l = preorder(last);
        let p = all_preorder(s);
        assert(p == f + l);
        if any_packed(front) {
            let i = choose|i: int| 0 <= i < f.len() && (#[trigger] f[i]).layout == 3;
            assert(p[i] == f[i]);
        } else if has_packed(last) {
            let i = choose|i: int| 0 <= i < l.len() && (#[trigger] l[i]).layout == 3;
            assert(p[f.len() + i] == l[i]);
        }
        if exists|i: int| 0 <= i < p.len() && (#[trigger] p[i]).layout == 3 {
            let i = choose|i: int| 0 <= i < p.len() && (#[trigger] p[i]).layout == 3;
            if i < f.len() {
                assert(f[i] == p[i]);
            } else {
                assert(l[i - f.len()] == p[i]);
            }
        }
    }
}

/// An edit compresses what it rebuilds as it was asked to, or else where the
/// image was compressed. It rebuilds the whole image where something is removed
/// or compression is asked for, and patches metadata where nothing else changes.
pub proof fn edits_are_planned_by_their_actions(
    sb: Superblock,
    d: Seq<u8>,
    root: NodeView,
    actions: Seq<ActionView>,
    compress: Algo,
    explicit: bool,
    sparse: bool,
    build_time: u64,
)
    ensures
        ({
            let p = edit_plan(root, actions, compress, explicit);
            let packed = exists|i: int|
                0 <= i < preorder(root).len() && (#[trigger] preorder(root)[i]).layout == 3;
            let removes = exists|i: int| 0 <= i < actions.len() && #[trigger] actions[i] is Remove;
            let only_metadata = forall|i: int|
                0 <= i < actions.len() ==> ((#[trigger] actions[i]) is SetMode || actions[i]
                    is SetOwner || actions[i] is SetContext);
            &&& explicit ==> p.algo == compress
            &&& !explicit && packed ==> p.algo == Algo::Lz4
            &&& !explicit && !packed ==> p.algo == Algo::Off
            &&& !only_metadata && (removes || (explicit && compress != Algo::Off)) ==> edited(
                sb,
                d,
                p,
                root,
                sparse,
                build_time,
            ) == rebuilt(sb, d, root, p.algo, build_time)
            &&& only_metadata && !has_explicit_context(root) ==> (retouched_image(
                sb,
                d,
                root,
                sparse,
            ) matches Ok(data) ==> edited(sb, d, p, root, sparse, build_time) == Ok::<
                Output,
                Fault,
            >(Output::Sent(data)))
        }),
{
    compressed_trees_hold_a_compressed_file(root);
    if forall|i: int|
        0 <= i < actions.len() ==> ((#[trigger] actions[i]) is SetMode || actions[i] is SetOwner
            || actions[i] is SetContext) {
        assert(all_touch(actions));
    } else {
        let i = choose|i: int|
            0 <= i < actions.len() && !((#[trigger] actions[i]) is SetMode || actions[i] is SetOwner
                || actions[i] is SetContext);
        assert(!only_touches(actions[i]));
    }
}

} // verus!
