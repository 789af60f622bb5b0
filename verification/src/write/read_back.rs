//! A fresh EROFS image reads back as the tree that was written.
use super::blocks::{ranges_have_their_length, served, Volume};
use super::dir_laws::{directories_read_back, item_views};
use super::erofs_laws::{
    areas_read_back, context_entry, entries_read_back, entries_stand_in_the_table,
    bodies_read_back, shared_contexts_read_back,
};
use super::fresh::{
    context_index, inode_image, inode_place, is_plain_file, node_area, node_size, placed_tree,
    raw_block_of, Fresh, PLACE_MARGIN,
};
use super::fresh_laws::{
    blocks_in_order, carries, content_bounds, contents_apart, holds, inode_bounds, laid_is_there,
    laid_stays_apart, metadata_stays, settled_plan,
};
use super::layout::{
    all_numbered, clear_slot_is_first, directory_content, items_of, numbered, packed_items,
};
use super::node::{
    all_contexts_into, all_preorder, contexts_into, contexts_of, preorder, NodeView, PayloadView,
};
use super::overlay::inode_body;
use super::packed::{clusters_of, is_packed_file, map_place};
use super::rebuild::{moved, with_files};
use super::serve_laws::{plain_files_are_served, serves};
use super::source::{content_of, kids_of, read_node, tree_of, MAX_DEPTH};
use crate::buf::{le16, le32, le64, le_in_window, zeros};
use crate::error::Fault;
use crate::fs::erofs::dir::{parsed, RawView};
use crate::fs::erofs::encode::joined;
use crate::fs::erofs::inode::{
    data_of, data_start, inode_fields, inode_of, inode_offset, xattr_area, Inode,
};
use crate::fs::erofs::xattr::{
    first_label, selinux_of, shared_of, table_of, XattrView, INDEX_SECURITY,
};
use crate::fs::erofs::Superblock;
use crate::fs::ext4::selinux::selinux_name;
use crate::image::disk_read;
use crate::math::{align_up, ceil_div, ceil_div_covers, greatest, least};
use crate::text::{padded_text, sorted_texts, text_place, trim_both};
use vstd::prelude::*;
use vstd::utf8::encode_utf8;

verus! {

// ---------------------------------------------------------------------
// Contexts
// ---------------------------------------------------------------------
proof fn contexts_stay(n: NodeView, found: Seq<Seq<char>>, c: Seq<char>)
    requires
        found.contains(c),
    ensures
        contexts_into(n, found).contains(c),
    decreases n,
{
    let own = if n.labelled() && !found.contains(n.context->Some_0) {
        found.push(n.context->Some_0)
    } else {
        found
    };
    let i = choose|i: int| 0 <= i < found.len() && found[i] == c;
    assert(own[i] == c);
    all_contexts_stay(n.children, own, c);
}

proof fn all_contexts_stay(s: Seq<NodeView>, found: Seq<Seq<char>>, c: Seq<char>)
    requires
        found.contains(c),
    ensures
        all_contexts_into(s, found).contains(c),
    decreases s,
{
    if s.len() > 0 {
        let front = s.subrange(0, s.len() - 1);
        all_contexts_stay(front, found, c);
        contexts_stay(s[s.len() - 1], all_contexts_into(front, found), c);
    }
}

proof fn contexts_are_found(n: NodeView, found: Seq<Seq<char>>, k: int)
    requires
        0 <= k < preorder(n).len(),
        preorder(n)[k].labelled(),
    ensures
        contexts_into(n, found).contains(preorder(n)[k].context->Some_0),
    decreases n,
{
    let own = if n.labelled() && !found.contains(n.context->Some_0) {
        found.push(n.context->Some_0)
    } else {
        found
    };
    if k == 0 {
        let c = n.context->Some_0;
        if !found.contains(c) {
            assert(own[own.len() - 1] == c);
        }
        all_contexts_stay(n.children, own, c);
    } else {
        assert(preorder(n)[k] == all_preorder(n.children)[k - 1]);
        all_contexts_are_found(n.children, own, k - 1);
    }
}

proof fn all_contexts_are_found(s: Seq<NodeView>, found: Seq<Seq<char>>, k: int)
    requires
        0 <= k < all_preorder(s).len(),
        all_preorder(s)[k].labelled(),
    ensures
        all_contexts_into(s, found).contains(all_preorder(s)[k].context->Some_0),
    decreases s,
{
    let front = s.subrange(0, s.len() - 1);
    let last = s[s.len() - 1];
    let before = all_contexts_into(front, found);
    if k < all_preorder(front).len() {
        assert(all_preorder(s)[k] == all_preorder(front)[k]);
        all_contexts_are_found(front, found, k);
        contexts_stay(last, before, all_preorder(s)[k].context->Some_0);
    } else {
        assert(all_preorder(s)[k] == preorder(last)[k - all_preorder(front).len()]);
        contexts_are_found(last, before, k - all_preorder(front).len());
    }
}

proof fn place_is_inside(s: Seq<Seq<char>>, t: Seq<char>)
    ensures
        0 <= text_place(s, t) <= s.len(),
    decreases s.len(),
{
    if s.len() > 0 {
        place_is_inside(s.drop_last(), t);
    }
}

proof fn sorting_keeps_texts(s: Seq<Seq<char>>, c: Seq<char>)
    requires
        s.contains(c),
    ensures
        sorted_texts(s).contains(c),
    decreases s.len(),
{
    let rest = sorted_texts(s.drop_last());
    let p = text_place(rest, s.last());
    place_is_inside(rest, s.last());
    let whole = rest.insert(p, s.last());
    if c == s.last() {
        assert(whole[p] == c);
    } else {
        let i = choose|i: int| 0 <= i < s.len() && s[i] == c;
        assert(s.drop_last()[i] == c);
        sorting_keeps_texts(s.drop_last(), c);
        let j = choose|j: int| 0 <= j < rest.len() && rest[j] == c;
        if j < p {
            assert(whole[j] == c);
        } else {
            assert(whole[j + 1] == c);
        }
    }
}

proof fn contexts_stay_distinct(n: NodeView, found: Seq<Seq<char>>)
    requires
        found.no_duplicates(),
    ensures
        contexts_into(n, found).no_duplicates(),
    decreases n,
{
    let own = if n.labelled() && !found.contains(n.context->Some_0) {
        found.push(n.context->Some_0)
    } else {
        found
    };
    assert(own.no_duplicates());
    all_contexts_stay_distinct(n.children, own);
}

proof fn all_contexts_stay_distinct(s: Seq<NodeView>, found: Seq<Seq<char>>)
    requires
        found.no_duplicates(),
    ensures
        all_contexts_into(s, found).no_duplicates(),
    decreases s,
{
    if s.len() > 0 {
        let front = s.subrange(0, s.len() - 1);
        all_contexts_stay_distinct(front, found);
        contexts_stay_distinct(s[s.len() - 1], all_contexts_into(front, found));
    }
}

proof fn sorting_brings_nothing(s: Seq<Seq<char>>, c: Seq<char>)
    requires
        sorted_texts(s).contains(c),
    ensures
        s.contains(c),
    decreases s.len(),
{
    if s.len() > 0 {
        let front = s.drop_last();
        let rest = sorted_texts(front);
        let p = text_place(rest, s.last());
        place_is_inside(rest, s.last());
        let whole = rest.insert(p, s.last());
        let i = choose|i: int| 0 <= i < whole.len() && whole[i] == c;
        if i == p {
            assert(s[s.len() - 1] == c);
        } else {
            let q = if i < p {
                i
            } else {
                i - 1
            };
            assert(rest[q] == c);
            sorting_brings_nothing(front, c);
            let k = choose|k: int| 0 <= k < front.len() && front[k] == c;
            assert(s[k] == c);
        }
    }
}

proof fn sorting_keeps_distinct(s: Seq<Seq<char>>)
    requires
        s.no_duplicates(),
    ensures
        sorted_texts(s).no_duplicates(),
    decreases s.len(),
{
    if s.len() > 0 {
        let front = s.drop_last();
        let rest = sorted_texts(front);
        let p = text_place(rest, s.last());
        place_is_inside(rest, s.last());
        sorting_keeps_distinct(front);
        if rest.contains(s.last()) {
            sorting_brings_nothing(front, s.last());
            let k = choose|k: int| 0 <= k < front.len() && front[k] == s.last();
            assert(s[k] == s[s.len() - 1]);
        }
        let whole = rest.insert(p, s.last());
        assert forall|i: int, j: int|
            0 <= i < whole.len() && 0 <= j < whole.len() && i != j implies whole[i] != whole[j] by {
            let x = if i < p {
                i
            } else {
                i - 1
            };
            let y = if j < p {
                j
            } else {
                j - 1
            };
            if i == p {
                assert(whole[j] == rest[y]);
            } else if j == p {
                assert(whole[i] == rest[x]);
            } else {
                assert(rest[x] != rest[y]);
            }
        }
    }
}

/// The table of contexts holds every context once.
pub proof fn contexts_are_stored_once(tree: NodeView)
    ensures
        contexts_of(tree).no_duplicates(),
{
    contexts_stay_distinct(tree, Seq::empty());
    sorting_keeps_distinct(contexts_into(tree, Seq::empty()));
}

proof fn index_is_found(s: Seq<Seq<char>>, c: Seq<char>, i: int, j: int)
    requires
        0 <= i <= j < s.len(),
        s[j] == c,
    ensures
        i <= context_index(s, c, i) < s.len(),
        s[context_index(s, c, i)] == c,
    decreases s.len() - i,
{
    if s[i] != c {
        index_is_found(s, c, i + 1, j);
    }
}

/// Every context of a tree has a place in its list of contexts.
pub proof fn contexts_have_a_place(tree: NodeView, k: int)
    requires
        0 <= k < preorder(tree).len(),
        preorder(tree)[k].labelled(),
    ensures
        ({
            let c = preorder(tree)[k].context->Some_0;
            let i = context_index(contexts_of(tree), c, 0);
            0 <= i < contexts_of(tree).len() && contexts_of(tree)[i] == c
        }),
{
    let c = preorder(tree)[k].context->Some_0;
    let s = contexts_of(tree);
    contexts_are_found(tree, Seq::empty(), k);
    sorting_keeps_texts(contexts_into(tree, Seq::empty()), c);
    let j = choose|j: int| 0 <= j < s.len() && s[j] == c;
    index_is_found(s, c, 0, j);
}

// ---------------------------------------------------------------------
// One node
// ---------------------------------------------------------------------
/// The superblock `sb` describes the image `d`, which holds the metadata of
/// the plan `f` of the tree.
#[verifier::opaque]
pub open spec fn described(
    sb: Superblock,
    d: Seq<u8>,
    f: Fresh,
    tree: NodeView,
    next: int,
) -> bool {
    &&& settled_plan(f, next)
    &&& f == placed_tree(tree, next, f.block_size, f.meta_block)
    &&& carries(d, f)
    &&& f.end_block * f.block_size <= d.len()
    &&& sb.block_size == f.block_size
    &&& sb.meta_blkaddr == f.meta_block
    &&& f.table.len() > 0 ==> sb.xattr_blkaddr == f.table_block
    &&& f.table.len() <= 4 * u32::MAX
}

/// The label that is read of a context.
pub open spec fn label_of(n: NodeView) -> Option<Seq<char>> {
    if n.labelled() {
        Some(trim_both(n.context->Some_0))
    } else {
        None
    }
}

/// There is room behind the inode of a listed node.
proof fn inodes_have_room_behind(f: Fresh, next: int, k: int)
    requires
        settled_plan(f, next),
        0 <= k < f.list.len(),
    ensures
        inode_place(f, f.list[k].nid) + 96 <= f.end_block * f.block_size,
{
    blocks_in_order(f, next);
    inode_bounds(f, next, k);
    super::layout::slots_are_positive(f.list[k]);
    assert((f.table_block + 1) * f.block_size == f.table_block * f.block_size + f.block_size)
        by (nonlinear_arith);
    assert((f.table_block + 1) * f.block_size <= f.end_block * f.block_size) by (nonlinear_arith)
        requires
            f.table_block + 1 <= f.end_block,
            f.block_size > 0,
    ;
}

/// Where the inode of a listed node is in the image.
#[verifier::rlimit(100)]
#[verifier::spinoff_prover]
pub proof fn inode_is_there(sb: Superblock, d: Seq<u8>, f: Fresh, tree: NodeView, next: int, k: int)
    requires
        described(sb, d, f, tree, next),
        0 <= k < f.list.len(),
    ensures
        holds(d, inode_place(f, f.list[k].nid), inode_image(f, k)),
        inode_offset(sb, f.list[k].nid) == inode_place(f, f.list[k].nid),
        inode_place(f, f.list[k].nid) + 96 <= d.len(),
        inode_place(f, f.list[k].nid) + PLACE_MARGIN <= u64::MAX,
        inode_image(f, k).len() == f.list[k].body() + node_area(f, f.list[k]).len(),
        node_area(f, f.list[k]).len() == if f.list[k].labelled() {
            16int
        } else {
            0
        },
        0 <= node_size(f.list[k], f.block_size) <= u32::MAX,
        0 <= raw_block_of(f, k) <= u32::MAX,
        f.list[k].nid >= 1,
{
    reveal(described);
    let n = f.list[k];
    let at = inode_place(f, n.nid);
    blocks_in_order(f, next);
    inode_bounds(f, next, k);
    super::fresh::rooms_grow(f.list, f.block_size, k);
    assert(node_size(n, f.block_size) <= u32::MAX);
    assert(at + PLACE_MARGIN <= u64::MAX);
    assert(f.meta_block * f.block_size >= 0) by (nonlinear_arith)
        requires
            f.meta_block >= 0,
            f.block_size >= 512,
    ;
    assert(n.nid % 0x800_0000_0000_0000 == n.nid);
    inodes_have_room_behind(f, next, k);
}

/// The fields of an inode that stands in an image.
proof fn fields_read_back(sb: Superblock, d: Seq<u8>, nid: u64, c: Seq<u8>, body: int) -> (fi: Inode)
    requires
        c.len() == body,
        body == 32 && le16(c, 0) % 2 == 0 || body == 64 && le16(c, 0) % 2 == 1,
        holds(d, inode_offset(sb, nid), c),
        inode_offset(sb, nid) + 96 <= d.len(),
        inode_offset(sb, nid) + 96 <= u64::MAX,
        le16(c, 0) / 2 == 0 || le16(c, 0) / 2 == 3,
        le16(c, 2) == 0 || le16(c, 2) == 2,
    ensures
        inode_of(sb, d, nid) == Ok::<Inode, Fault>(fi),
        fi.nid == nid,
        fi.mode == le16(c, 4),
        fi.uid == if body == 64 {
            le32(c, 24)
        } else {
            le16(c, 24) as u32
        },
        fi.gid == if body == 64 {
            le32(c, 28)
        } else {
            le16(c, 26) as u32
        },
        fi.size == if body == 64 {
            le64(c, 8)
        } else {
            le32(c, 8) as u64
        },
        fi.raw_blkaddr == le32(c, 16),
        fi.layout == le16(c, 0) / 2,
        fi.inode_size == body,
        fi.xattr_size == if le16(c, 2) == 0 {
            0int
        } else {
            16
        },
        le16(c, 0) / 2 == 3 ==> {
            let map = align_up(
                inode_offset(sb, nid) + body + if le16(c, 2) == 0 {
                    0int
                } else {
                    16
                },
                8,
            );
            &&& fi.data_offset == map
            &&& fi.advise == le16(d, map + 4)
            &&& fi.algorithm_type == d[map + 6]
            &&& fi.cluster_bits == d[map + 7] % 8
        },
{
    let at = inode_offset(sb, nid);
    let x = d.subrange(at, at + 64);
    assert(x.subrange(0, body) =~= d.subrange(at, at + body));
    le_in_window(x, 0, c, 0);
    le_in_window(x, 0, c, 2);
    le_in_window(x, 0, c, 4);
    le_in_window(x, 0, c, 8);
    le_in_window(x, 0, c, 16);
    le_in_window(x, 0, c, 24);
    le_in_window(x, 0, c, 26);
    le_in_window(x, 0, c, 28);
    ceil_div_covers(at + body, 4);
    ceil_div_covers(at + body, 8);
    ceil_div_covers(at + body + 16, 4);
    ceil_div_covers(at + body + 16, 8);
    let start = data_start(at, x);
    let area: int = if le16(c, 2) == 0 {
        0
    } else {
        16
    };
    let unit: int = if le16(c, 0) / 2 == 3 {
        8
    } else {
        4
    };
    assert(le16(x, 0) == le16(c, 0) && le16(x, 2) == le16(c, 2));
    assert(le16(x, 0) % 2 == 1 <==> body == 64);
    assert(xattr_area(le16(x, 2) as int) == area);
    assert(start == align_up(at + body + area, unit));
    assert(start + 8 <= at + 96);
    let header = if le16(c, 0) / 2 == 3 {
        d.subrange(start, start + 8)
    } else {
        zeros(8)
    };
    if le16(c, 0) / 2 == 3 {
        le_in_window(d, start, header, 4);
    }
    assert(disk_read(d, at, 64) == Ok::<Seq<u8>, Fault>(x));
    assert(start <= u64::MAX);
    assert(le16(c, 0) / 2 == 3 ==> disk_read(d, start, 8) == Ok::<Seq<u8>, Fault>(header));
    assert(le16(x, 0) / 2 % 8 == 3 <==> le16(c, 0) / 2 == 3);
    inode_fields(nid, at, x, header)
}

/// The inode of a listed node reads back.
pub proof fn inode_reads_back(
    sb: Superblock,
    d: Seq<u8>,
    f: Fresh,
    tree: NodeView,
    next: int,
    k: int,
) -> (fi: Inode)
    requires
        described(sb, d, f, tree, next),
        0 <= k < f.list.len(),
    ensures
        inode_of(sb, d, f.list[k].nid) == Ok::<Inode, Fault>(fi),
        fi.nid == f.list[k].nid,
        fi.mode == f.list[k].mode,
        fi.uid == f.list[k].uid,
        fi.gid == f.list[k].gid,
        fi.size == node_size(f.list[k], f.block_size),
        fi.raw_blkaddr == raw_block_of(f, k),
        f.list[k].is_dir() || is_plain_file(f.list[k]) ==> fi.layout == 0,
        fi.inode_size == f.list[k].body(),
        fi.xattr_size == node_area(f, f.list[k]).len(),
        is_packed_file(f.list[k]) ==> {
            let map = map_place(f, f.list[k]);
            &&& fi.layout == 3
            &&& fi.data_offset == map
            &&& fi.advise == le16(d, map + 4)
            &&& fi.algorithm_type == d[map + 6]
            &&& fi.cluster_bits == d[map + 7] % 8
        },
{
    let n = f.list[k];
    inode_is_there(sb, d, f, tree, next, k);
    let layout: u16 = if !n.is_dir() && n.erofs_compact_clusters > 0 {
        3
    } else {
        0
    };
    let icount: u16 = if n.labelled() {
        2
    } else {
        0
    };
    let size = node_size(n, f.block_size) as u32;
    let raw = raw_block_of(f, k) as u32;
    bodies_read_back(n, layout, icount, size, raw);
    let c = inode_body(n, layout, icount, size, raw);
    let at = inode_offset(sb, n.nid);
    let image = inode_image(f, k);
    let body = n.body();
    assert(image == c + node_area(f, n));
    assert(d.subrange(at, at + body) =~= d.subrange(at, at + image.len()).subrange(0, body));
    assert(image.subrange(0, body) =~= c);
    fields_read_back(sb, d, n.nid, c, body)
}

proof fn area_is_behind(d: Seq<u8>, at: int, image: Seq<u8>, body: int, area: Seq<u8>)
    requires
        0 <= at,
        0 <= body,
        holds(d, at, image),
        image.len() == body + area.len(),
        image.skip(body) == area,
    ensures
        d.subrange(at + body, at + body + area.len()) == area,
{
    assert(d.subrange(at + body, at + body + area.len()) =~= d.subrange(
        at,
        at + image.len(),
    ).skip(body));
}

/// The label of a listed node, read through its area and the table.
proof fn label_reads_back(
    sb: Superblock,
    d: Seq<u8>,
    f: Fresh,
    tree: NodeView,
    next: int,
    k: int,
    fi: Inode,
)
    requires
        described(sb, d, f, tree, next),
        0 <= k < f.list.len(),
        f.list[k].labelled() ==> encode_utf8(f.list[k].context->Some_0).len() <= 0xffff,
        fi.nid == f.list[k].nid,
        fi.inode_size == f.list[k].body(),
        fi.xattr_size == node_area(f, f.list[k]).len(),
    ensures
        selinux_of(sb, d, fi) == Ok::<Option<Seq<char>>, Fault>(label_of(f.list[k])),
{
    let n = f.list[k];
    inode_is_there(sb, d, f, tree, next, k);
    if n.labelled() {
        let c = n.context->Some_0;
        let i = context_index(f.contexts, c, 0);
        let id = (table_of(f.contexts, i).len() / 4) as u32;
        context_is_shared(sb, d, f, tree, next, k);
        areas_read_back(sb, d, id, c);
        let area = node_area(f, n);
        let at = inode_place(f, n.nid);
        let image = inode_image(f, k);
        assert(image.skip(n.body()) =~= area);
        area_is_behind(d, at, image, n.body(), area);
        assert(disk_read(d, at + n.body(), 16) == Ok::<Seq<u8>, Fault>(area));
    } else {
        assert(first_label(Seq::<XattrView>::empty()) is None);
    }
}

#[verifier::rlimit(40)]
proof fn context_is_shared(sb: Superblock, d: Seq<u8>, f: Fresh, tree: NodeView, next: int, k: int)
    requires
        described(sb, d, f, tree, next),
        0 <= k < f.list.len(),
        f.list[k].labelled(),
        encode_utf8(f.list[k].context->Some_0).len() <= 0xffff,
    ensures
        shared_of(
            sb,
            d,
            (table_of(
                f.contexts,
                context_index(f.contexts, f.list[k].context->Some_0, 0),
            ).len() / 4) as u32,
        ) == Ok::<XattrView, Fault>(context_entry(f.list[k].context->Some_0)),
{
    reveal(described);
    let c = f.list[k].context->Some_0;
    let i = context_index(f.contexts, c, 0);
    contexts_have_a_place(tree, k);
    blocks_in_order(f, next);
    assert(f.end_block * f.block_size <= 0xffff_ffff * 65536) by (nonlinear_arith)
        requires
            f.end_block <= 0xffff_ffff,
            0 < f.block_size <= 65536,
    ;
    entries_stand_in_the_table(f.contexts, i);
    entries_read_back(INDEX_SECURITY, selinux_name(), encode_utf8(c));
    ceil_div_covers(11int + encode_utf8(c).len(), 4);
    shared_contexts_read_back(sb, d, f.contexts, i);
}

// ---------------------------------------------------------------------
// The tree
// ---------------------------------------------------------------------
/// A tree that can be read back: no deeper than reading goes, contexts that an
/// entry has room for, and below directories only, names that can be told from the padding and from the
/// directory itself and its parent.
pub open spec fn readable(n: NodeView, depth: int) -> bool
    decreases n,
{
    &&& depth <= MAX_DEPTH
    &&& n.labelled() ==> encode_utf8(n.context->Some_0).len() <= 0xffff
    &&& !n.is_dir() ==> n.children.len() == 0
    &&& forall|i: int|
        0 <= i < n.children.len() ==> readable(#[trigger] n.children[i], depth + 1)
            && n.children[i].name.len() > 0 && !n.children[i].name.contains('\0')
            && n.children[i].name != "."@ && n.children[i].name != ".."@
}

/// The content of a file, as the source gives it: in pieces where it is
/// stored as it is, cluster by cluster where it is compressed.
pub open spec fn source_content(v: Volume, n: NodeView, block_size: int) -> Result<Seq<u8>, Fault> {
    let size = n.data_size as int;
    if n.erofs_compact_clusters == 0 {
        moved(v, n, 0, size)
    } else {
        match clusters_of(v, n, block_size, size, 0, ceil_div(size, block_size)) {
            Err(e) => Err(e),
            Ok(c) => Ok(joined(c)),
        }
    }
}

/// The tree `r` that was read from the image `d` is the tree `n` with content
/// from `v`: the same names, modes, owners, labels, sizes and contents.
pub open spec fn regained(sb: Superblock, d: Seq<u8>, v: Volume, r: NodeView, n: NodeView) -> bool
    decreases n,
{
    &&& r.mode == n.mode
    &&& r.uid == n.uid
    &&& r.gid == n.gid
    &&& r.context == label_of(n)
    &&& !n.is_dir() ==> r.data_size == n.data_size
    &&& !n.is_dir() ==> content_of(sb, d, r.nid) == source_content(v, n, sb.block_size as int)
    &&& !n.is_dir() ==> (content_of(sb, d, r.nid) matches Ok(c) ==> serves(
        Volume::Erofs { sb, d },
        r,
        c,
    ))
    &&& r.children.len() == n.children.len()
    &&& forall|i: int|
        0 <= i < n.children.len() ==> r.children[i].name == (#[trigger] n.children[i]).name
            && regained(sb, d, v, r.children[i], n.children[i])
}

/// Every file reads back as its content.
#[verifier::opaque]
pub open spec fn files_there(sb: Superblock, d: Seq<u8>, v: Volume, f: Fresh) -> bool {
    forall|k: int|
        0 <= k < f.list.len() && !(#[trigger] f.list[k]).is_dir() ==> file_there(sb, d, v, f.list[k])
}

/// The content of a file reads back, and is served as it reads.
pub open spec fn file_there(sb: Superblock, d: Seq<u8>, v: Volume, n: NodeView) -> bool {
    &&& content_of(sb, d, n.nid) == source_content(v, n, sb.block_size as int)
    &&& content_of(sb, d, n.nid) matches Ok(c) ==> serves(
        Volume::Erofs { sb, d },
        bare_node(sb, d, n.nid),
        c,
    )
}

/// The node of a file as it is read, without its name and label.
pub open spec fn bare_node(sb: Superblock, d: Seq<u8>, nid: u64) -> NodeView {
    read_node(
        nid,
        Seq::empty(),
        inode_of(sb, d, nid)->Ok_0,
        PayloadView::Empty,
        Seq::empty(),
        None,
    )
}

proof fn bare_nodes_serve(
    sb: Superblock,
    d: Seq<u8>,
    nid: u64,
    name: Seq<char>,
    context: Option<Seq<char>>,
    c: Seq<u8>,
)
    requires
        serves(Volume::Erofs { sb, d }, bare_node(sb, d, nid), c),
    ensures
        serves(
            Volume::Erofs { sb, d },
            read_node(
                nid,
                name,
                inode_of(sb, d, nid)->Ok_0,
                PayloadView::Empty,
                Seq::empty(),
                context,
            ),
            c,
        ),
{
    let w = Volume::Erofs { sb, d };
    let a = bare_node(sb, d, nid);
    let b = read_node(
        nid,
        name,
        inode_of(sb, d, nid)->Ok_0,
        PayloadView::Empty,
        Seq::empty(),
        context,
    );
    assert forall|offset: int, len: int|
        0 <= offset && 0 < len && offset + len <= c.len() implies #[trigger] served(
        w,
        b,
        offset,
        len,
    ) == Ok::<Seq<u8>, Fault>(c.subrange(offset, offset + len)) by {
        assert(served(w, a, offset, len) == served(w, b, offset, len));
    }
}

/// The node and everything below it is listed, under a parent with a number.
pub open spec fn listed(list: Seq<NodeView>, n: NodeView) -> bool
    decreases n,
{
    &&& list.contains(n)
    &&& n.parent_nid != 0
    &&& forall|i: int| 0 <= i < n.children.len() ==> listed(list, #[trigger] n.children[i])
}

proof fn directory_reads_back(
    sb: Superblock,
    d: Seq<u8>,
    f: Fresh,
    tree: NodeView,
    next: int,
    k: int,
    fi: Inode,
)
    requires
        described(sb, d, f, tree, next),
        0 <= k < f.list.len(),
        f.list[k].is_dir(),
        listed(f.list, f.list[k]),
        forall|i: int|
            0 <= i < f.list[k].children.len() ==> (#[trigger] f.list[k].children[i]).name.len() > 0
                && !f.list[k].children[i].name.contains('\0'),
        fi.size == node_size(f.list[k], f.block_size),
        fi.raw_blkaddr == raw_block_of(f, k),
        fi.layout == 0,
    ensures
        fi.size > 0,
        data_of(sb, d, fi) == Ok::<Seq<u8>, Fault>(directory_content(f.list[k], f.block_size)),
        parsed(directory_content(f.list[k], f.block_size), sb.block_size as int) == Ok::<
            Seq<RawView>,
            Fault,
        >(item_views(items_of(f.list[k]))),
{
    inode_is_there(sb, d, f, tree, next, k);
    reveal(described);
    let n = f.list[k];
    let bs = f.block_size;
    let data = directory_content(n, bs);
    assert(data.len() > 0);
    assert(packed_items(items_of(n), 0, bs) is Some);
    content_bounds(f, next, k);
    blocks_in_order(f, next);
    assert(f.end_block * f.block_size <= 0xffff_ffff * 65536) by (nonlinear_arith)
        requires
            f.end_block <= 0xffff_ffff,
            0 < f.block_size <= 65536,
    ;
    assert(data_of(sb, d, fi) == Ok::<Seq<u8>, Fault>(data));
    assert forall|j: int| 0 <= j < n.children.len() implies (#[trigger] n.children[j]).nid != 0 by {
        let c = n.children[j];
        assert(listed(f.list, c));
        let q = choose|q: int| 0 <= q < f.list.len() && f.list[q] == c;
        inode_bounds(f, next, q);
    }
    directories_read_back(n, bs);
}

/// A tree that was written is read.
pub proof fn tree_reads(
    sb: Superblock,
    d: Seq<u8>,
    v: Volume,
    f: Fresh,
    tree: NodeView,
    next: int,
    n: NodeView,
    name: Seq<char>,
    depth: int,
)
    requires
        described(sb, d, f, tree, next),
        files_there(sb, d, v, f),
        readable(n, depth),
        listed(f.list, n),
        0 <= depth,
    ensures
        tree_of(sb, d, n.nid, name, depth) matches Ok(r) && r.name == name && regained(
            sb,
            d,
            v,
            r,
            n,
        ),
    decreases n, 1int, 0int,
{
    if n.is_dir() {
        let count = n.children.len() as int;
        let entries = item_views(items_of(n));
        kids_read(sb, d, v, f, tree, next, n, count, depth);
        assert(entries.take(2 + count) =~= entries);
        directory_regained(sb, d, v, f, tree, next, n, name, depth);
    } else {
        file_regained(sb, d, v, f, tree, next, n, name, depth);
    }
}

proof fn directory_regained(
    sb: Superblock,
    d: Seq<u8>,
    v: Volume,
    f: Fresh,
    tree: NodeView,
    next: int,
    n: NodeView,
    name: Seq<char>,
    depth: int,
)
    requires
        described(sb, d, f, tree, next),
        readable(n, depth),
        listed(f.list, n),
        n.is_dir(),
        kids_of(sb, d, item_views(items_of(n)), depth + 1) matches Ok(s) && s.len()
            == n.children.len() && (forall|i: int|
            0 <= i < n.children.len() ==> s[i].name == (#[trigger] n.children[i]).name && regained(
                sb,
                d,
                v,
                s[i],
                n.children[i],
            )),
    ensures
        tree_of(sb, d, n.nid, name, depth) matches Ok(r) && r.name == name && regained(
            sb,
            d,
            v,
            r,
            n,
        ),
{
    let k = choose|k: int| 0 <= k < f.list.len() && f.list[k] == n;
    let fi = inode_reads_back(sb, d, f, tree, next, k);
    label_reads_back(sb, d, f, tree, next, k, fi);
    let data = directory_content(n, f.block_size);
    directory_reads_back(sb, d, f, tree, next, k, fi);
    let entries = item_views(items_of(n));
    let kids = kids_of(sb, d, entries, depth + 1)->Ok_0;
    directory_node(sb, d, n.nid, name, depth, fi, data, label_of(n), entries, kids);
}

proof fn file_regained(
    sb: Superblock,
    d: Seq<u8>,
    v: Volume,
    f: Fresh,
    tree: NodeView,
    next: int,
    n: NodeView,
    name: Seq<char>,
    depth: int,
)
    requires
        described(sb, d, f, tree, next),
        files_there(sb, d, v, f),
        readable(n, depth),
        listed(f.list, n),
        !n.is_dir(),
    ensures
        tree_of(sb, d, n.nid, name, depth) matches Ok(r) && r.name == name && regained(
            sb,
            d,
            v,
            r,
            n,
        ),
{
    let k = choose|k: int| 0 <= k < f.list.len() && f.list[k] == n;
    let fi = inode_reads_back(sb, d, f, tree, next, k);
    label_reads_back(sb, d, f, tree, next, k, fi);
    assert(file_there(sb, d, v, n)) by {
        reveal(files_there);
        assert(f.list[k] == n);
    }
    if let Ok(c) = content_of(sb, d, n.nid) {
        bare_nodes_serve(sb, d, n.nid, name, label_of(n), c);
    }
    file_node(sb, d, n.nid, name, depth, fi, label_of(n));
}

/// How the tree of a file is read.
pub proof fn file_node(
    sb: Superblock,
    d: Seq<u8>,
    nid: u64,
    name: Seq<char>,
    depth: int,
    fi: Inode,
    context: Option<Seq<char>>,
)
    requires
        depth <= MAX_DEPTH,
        inode_of(sb, d, nid) == Ok::<Inode, Fault>(fi),
        fi.mode & 0xf000 != 0x4000,
        selinux_of(sb, d, fi) == Ok::<Option<Seq<char>>, Fault>(context),
    ensures
        tree_of(sb, d, nid, name, depth) == Ok::<NodeView, Fault>(
            read_node(nid, name, fi, PayloadView::Empty, Seq::empty(), context),
        ),
{
}

/// How the tree of a directory is read.
pub proof fn directory_node(
    sb: Superblock,
    d: Seq<u8>,
    nid: u64,
    name: Seq<char>,
    depth: int,
    fi: Inode,
    data: Seq<u8>,
    context: Option<Seq<char>>,
    entries: Seq<RawView>,
    kids: Seq<NodeView>,
)
    requires
        depth <= MAX_DEPTH,
        inode_of(sb, d, nid) == Ok::<Inode, Fault>(fi),
        fi.size > 0,
        fi.mode & 0xf000 == 0x4000,
        data_of(sb, d, fi) == Ok::<Seq<u8>, Fault>(data),
        selinux_of(sb, d, fi) == Ok::<Option<Seq<char>>, Fault>(context),
        parsed(data, sb.block_size as int) == Ok::<Seq<RawView>, Fault>(entries),
        kids_of(sb, d, entries, depth + 1) == Ok::<Seq<NodeView>, Fault>(kids),
    ensures
        tree_of(sb, d, nid, name, depth) == Ok::<NodeView, Fault>(
            read_node(nid, name, fi, PayloadView::InlineDir(data), kids, context),
        ),
{
}

proof fn kids_read(
    sb: Superblock,
    d: Seq<u8>,
    v: Volume,
    f: Fresh,
    tree: NodeView,
    next: int,
    n: NodeView,
    m: int,
    depth: int,
)
    requires
        described(sb, d, f, tree, next),
        files_there(sb, d, v, f),
        readable(n, depth),
        listed(f.list, n),
        0 <= depth,
        0 <= m <= n.children.len(),
    ensures
        kids_of(sb, d, item_views(items_of(n)).take(2 + m), depth + 1) matches Ok(s) && s.len() == m
            && (forall|i: int|
            0 <= i < m ==> s[i].name == (#[trigger] n.children[i]).name && regained(
                sb,
                d,
                v,
                s[i],
                n.children[i],
            )),
    decreases n, 0int, m,
{
    let entries = item_views(items_of(n));
    let t = entries.take(2 + m);
    if m == 0 {
        padded_text("."@, 0);
        padded_text(".."@, 0);
        assert(t.drop_last() =~= entries.take(1));
        assert(entries.take(1).drop_last() =~= Seq::empty());
        assert(items_of(n)[0].name == encode_utf8("."@));
        assert(items_of(n)[1].name == encode_utf8(".."@));
        assert(entries[0].name == "."@);
        assert(entries[1].name == ".."@);
        assert(kids_of(sb, d, Seq::<RawView>::empty(), depth + 1) == Ok::<Seq<NodeView>, Fault>(
            Seq::empty(),
        ));
        assert(entries.take(1).last() == entries[0]);
        assert(kids_of(sb, d, entries.take(1), depth + 1) == Ok::<Seq<NodeView>, Fault>(
            Seq::empty(),
        ));
        assert(t.last() == entries[1]);
    } else {
        let c = n.children[m - 1];
        kids_read(sb, d, v, f, tree, next, n, m - 1, depth);
        assert(t.drop_last() =~= entries.take(2 + (m - 1)));
        assert(t.last() == entries[1 + m]);
        assert(items_of(n)[1 + m].name == encode_utf8(c.name));
        assert(items_of(n)[1 + m].nid == c.nid);
        padded_text(c.name, 0);
        assert(readable(c, depth + 1));
        assert(listed(f.list, c));
        tree_reads(sb, d, v, f, tree, next, c, c.name, depth + 1);
    }
}

// ---------------------------------------------------------------------
// Numbers
// ---------------------------------------------------------------------
/// The tree `t` is the tree `n` but for the numbers, and every node has a
/// parent with a number.
pub open spec fn renumbered(t: NodeView, n: NodeView) -> bool
    decreases n,
{
    &&& t.parent_nid != 0
    &&& t == (NodeView { nid: t.nid, parent_nid: t.parent_nid, children: t.children, ..n })
    &&& t.children.len() == n.children.len()
    &&& forall|i: int|
        0 <= i < n.children.len() ==> renumbered(t.children[i], #[trigger] n.children[i])
}

/// Numbering changes nothing but the numbers.
pub proof fn numbering_keeps_the_tree(n: NodeView, next: int, parent: u64, base: int)
    requires
        1 <= next,
        0 <= base,
        parent != 0,
    ensures
        numbered(n, next, parent, base) matches Some((t, end)) ==> renumbered(t, n) && next <= end,
    decreases n,
{
    let at = super::layout::clear_slot(next, base, n.slots());
    clear_slot_is_first(next, base, n.slots());
    super::layout::slots_are_positive(n);
    if at + n.slots() <= u64::MAX {
        all_numbering_keeps(n.children, at + n.slots(), at as u64, base);
    }
}

proof fn all_numbering_keeps(s: Seq<NodeView>, next: int, parent: u64, base: int)
    requires
        1 <= next,
        0 <= base,
        parent != 0,
    ensures
        all_numbered(s, next, parent, base) matches Some((t, end)) ==> t.len() == s.len() && next
            <= end && forall|i: int| 0 <= i < s.len() ==> renumbered(t[i], #[trigger] s[i]),
    decreases s,
{
    if s.len() > 0 {
        let front = s.subrange(0, s.len() - 1);
        all_numbering_keeps(front, next, parent, base);
        match all_numbered(front, next, parent, base) {
            Some((done, mid)) => {
                numbering_keeps_the_tree(s[s.len() - 1], mid, parent, base);
                match all_numbered(s, next, parent, base) {
                    Some((t, end)) => {
                        assert forall|i: int| 0 <= i < s.len() implies renumbered(
                            t[i],
                            #[trigger] s[i],
                        ) by {
                            if i < s.len() - 1 {
                                assert(front[i] == s[i]);
                                assert(t[i] == done[i]);
                            }
                        }
                    },
                    None => {},
                }
            },
            None => {},
        }
    }
}

/// Numbers do not matter for whether a tree can be read back.
pub proof fn renumbered_is_readable(t: NodeView, n: NodeView, depth: int)
    requires
        renumbered(t, n),
        readable(n, depth),
    ensures
        readable(t, depth),
    decreases n,
{
    assert forall|i: int| 0 <= i < t.children.len() implies readable(
        #[trigger] t.children[i],
        depth + 1,
    ) && t.children[i].name.len() > 0 && !t.children[i].name.contains('\0') && t.children[i].name
        != "."@ && t.children[i].name != ".."@ by {
        assert(renumbered(t.children[i], n.children[i]));
        assert(readable(n.children[i], depth + 1));
        renumbered_is_readable(t.children[i], n.children[i], depth + 1);
    }
}

/// Numbers do not matter for what is regained.
pub proof fn regained_but_for_numbers(
    sb: Superblock,
    d: Seq<u8>,
    v: Volume,
    r: NodeView,
    t: NodeView,
    n: NodeView,
)
    requires
        renumbered(t, n),
        regained(sb, d, v, r, t),
    ensures
        regained(sb, d, v, r, n),
    decreases n,
{
    if !n.is_dir() {
        let bs = sb.block_size as int;
        let size = n.data_size as int;
        moved_but_for_numbers(v, t, n, 0, size);
        clusters_but_for_numbers(v, t, n, bs, size, ceil_div(size, bs));
    }
    assert forall|i: int| 0 <= i < n.children.len() implies r.children[i].name == (
    #[trigger] n.children[i]).name && regained(sb, d, v, r.children[i], n.children[i]) by {
        assert(renumbered(t.children[i], n.children[i]));
        assert(regained(sb, d, v, r.children[i], t.children[i]));
        regained_but_for_numbers(sb, d, v, r.children[i], t.children[i], n.children[i]);
    }
}

proof fn moved_but_for_numbers(v: Volume, t: NodeView, n: NodeView, offset: int, size: int)
    requires
        t == (NodeView { nid: t.nid, parent_nid: t.parent_nid, children: t.children, ..n }),
    ensures
        moved(v, t, offset, size) == moved(v, n, offset, size),
    decreases greatest(size - offset, 0),
{
    if offset < size {
        let take = least(super::rebuild::QUANTUM as int, size - offset);
        moved_but_for_numbers(v, t, n, offset + take, size);
    }
}

proof fn clusters_but_for_numbers(
    v: Volume,
    t: NodeView,
    n: NodeView,
    block_size: int,
    size: int,
    to: int,
)
    requires
        t == (NodeView { nid: t.nid, parent_nid: t.parent_nid, children: t.children, ..n }),
    ensures
        clusters_of(v, t, block_size, size, 0, to) == clusters_of(v, n, block_size, size, 0, to),
    decreases to,
{
    if 0 < to {
        clusters_but_for_numbers(v, t, n, block_size, size, to - 1);
    }
}

proof fn preorder_has(s: Seq<NodeView>, i: int, j: int)
    requires
        0 <= i < s.len(),
        0 <= j < preorder(s[i]).len(),
    ensures
        all_preorder(s).contains(preorder(s[i])[j]),
    decreases s.len(),
{
    let front = s.subrange(0, s.len() - 1);
    let x = preorder(s[i])[j];
    let all = all_preorder(s);
    if i == s.len() - 1 {
        assert(all[all_preorder(front).len() + j] == x);
    } else {
        assert(front[i] == s[i]);
        preorder_has(front, i, j);
        let q = choose|q: int| 0 <= q < all_preorder(front).len() && all_preorder(front)[q] == x;
        assert(all[q] == x);
    }
}

/// The nodes of a tree are in its list.
pub proof fn nodes_are_listed(list: Seq<NodeView>, t: NodeView, n: NodeView)
    requires
        renumbered(t, n),
        forall|j: int| 0 <= j < preorder(t).len() ==> list.contains(#[trigger] preorder(t)[j]),
    ensures
        listed(list, t),
    decreases n,
{
    assert(preorder(t)[0] == t);
    assert forall|i: int| 0 <= i < t.children.len() implies listed(list, #[trigger] t.children[i]) by {
        let c = t.children[i];
        assert(renumbered(c, n.children[i]));
        assert forall|j: int| 0 <= j < preorder(c).len() implies list.contains(
            #[trigger] preorder(c)[j],
        ) by {
            preorder_has(t.children, i, j);
            let all = all_preorder(t.children);
            let q = choose|q: int| 0 <= q < all.len() && all[q] == preorder(c)[j];
            assert(preorder(t)[q + 1] == preorder(c)[j]);
        }
        nodes_are_listed(list, c, n.children[i]);
    }
}

// ---------------------------------------------------------------------
// Files
// ---------------------------------------------------------------------
/// An image has blocks of some size.
pub open spec fn sized(v: Volume) -> bool {
    v matches Volume::Ext4 { sb, .. } ==> sb.block_size > 0
}

/// What is moved has its length.
pub proof fn moved_length(v: Volume, n: NodeView, offset: int, size: int)
    requires
        sized(v),
        0 <= offset <= size,
    ensures
        moved(v, n, offset, size) matches Ok(x) ==> x.len() == size - offset,
    decreases size - offset,
{
    if offset < size {
        let take = least(super::rebuild::QUANTUM as int, size - offset);
        ranges_have_their_length(v, n, offset, take);
        moved_length(v, n, offset + take, size);
    }
}

/// Writing files leaves what is in front of them alone.
pub proof fn files_spare_the_front(s: Seq<u8>, v: Volume, f: Fresh, next: int, k: int, p: int, y: Seq<u8>)
    requires
        settled_plan(f, next),
        0 <= k <= f.list.len(),
        holds(s, p, y),
        p + y.len() <= f.file_block * f.block_size,
    ensures
        with_files(s, v, f, k) matches Ok(t) ==> holds(t, p, y) && t.len() >= s.len(),
    decreases k,
{
    if k > 0 {
        files_spare_the_front(s, v, f, next, k - 1, p, y);
        content_bounds(f, next, k - 1);
        let n = f.list[k - 1];
        if is_plain_file(n) && n.data_size > 0 {
            match (with_files(s, v, f, k - 1), moved(v, n, 0, n.data_size as int)) {
                (Ok(t), Ok(x)) => {
                    laid_stays_apart(t, raw_block_of(f, k - 1) * f.block_size, x, p, y);
                },
                _ => {},
            }
        }
    }
}

/// Writing files keeps the metadata.
pub proof fn files_keep_the_metadata(s: Seq<u8>, v: Volume, f: Fresh, next: int, k: int)
    requires
        settled_plan(f, next),
        0 <= k <= f.list.len(),
        carries(s, f),
    ensures
        with_files(s, v, f, k) matches Ok(t) ==> carries(t, f),
    decreases k,
{
    if k > 0 {
        files_keep_the_metadata(s, v, f, next, k - 1);
        content_bounds(f, next, k - 1);
        let n = f.list[k - 1];
        if is_plain_file(n) && n.data_size > 0 {
            match (with_files(s, v, f, k - 1), moved(v, n, 0, n.data_size as int)) {
                (Ok(t), Ok(x)) => {
                    metadata_stays(t, f, next, raw_block_of(f, k - 1) * f.block_size, x);
                },
                _ => {},
            }
        }
    }
}

/// Every file that is stored as it is is there once all are written.
pub proof fn files_arrive(s: Seq<u8>, v: Volume, f: Fresh, next: int, k: int, j: int)
    requires
        settled_plan(f, next),
        sized(v),
        0 <= j < k <= f.list.len(),
        is_plain_file(f.list[j]),
        f.list[j].data_size > 0,
    ensures
        with_files(s, v, f, k) matches Ok(t) ==> {
            &&& moved(v, f.list[j], 0, f.list[j].data_size as int) is Ok
            &&& holds(
                t,
                raw_block_of(f, j) * f.block_size,
                moved(v, f.list[j], 0, f.list[j].data_size as int)->Ok_0,
            )
        },
    decreases k,
{
    let bs = f.block_size;
    let n = f.list[k - 1];
    let own = moved(v, f.list[j], 0, f.list[j].data_size as int);
    blocks_in_order(f, next);
    content_bounds(f, next, k - 1);
    content_bounds(f, next, j);
    moved_length(v, f.list[j], 0, f.list[j].data_size as int);
    if j < k - 1 {
        files_arrive(s, v, f, next, k - 1, j);
    }
    if is_plain_file(n) && n.data_size > 0 {
        match (with_files(s, v, f, k - 1), moved(v, n, 0, n.data_size as int)) {
            (Ok(t), Ok(x)) => {
                if j == k - 1 {
                    laid_is_there(t, raw_block_of(f, j) * bs, x);
                } else {
                    contents_apart(f, next, j, k - 1);
                    laid_stays_apart(
                        t,
                        raw_block_of(f, k - 1) * bs,
                        x,
                        raw_block_of(f, j) * bs,
                        own->Ok_0,
                    );
                }
            },
            _ => {},
        }
    }
}

/// Where a file stands in the image that is stored as it is, reading gives its
/// content.
pub proof fn plain_file_reads_back(
    sb: Superblock,
    d: Seq<u8>,
    v: Volume,
    f: Fresh,
    tree: NodeView,
    next: int,
    k: int,
)
    requires
        described(sb, d, f, tree, next),
        sized(v),
        0 <= k < f.list.len(),
        is_plain_file(f.list[k]),
        f.list[k].data_size > 0 ==> {
            &&& moved(v, f.list[k], 0, f.list[k].data_size as int) is Ok
            &&& holds(
                d,
                raw_block_of(f, k) * f.block_size,
                moved(v, f.list[k], 0, f.list[k].data_size as int)->Ok_0,
            )
        },
    ensures
        file_there(sb, d, v, f.list[k]),
{
    let n = f.list[k];
    let fi = inode_reads_back(sb, d, f, tree, next, k);
    inode_is_there(sb, d, f, tree, next, k);
    if n.data_size > 0 {
        assert(settled_plan(f, next) && sb.block_size == f.block_size) by {
            reveal(described);
        }
        moved_length(v, n, 0, n.data_size as int);
        content_bounds(f, next, k);
        let x = moved(v, n, 0, n.data_size as int)->Ok_0;
        let at = raw_block_of(f, k) * f.block_size;
        assert(f.end_block * f.block_size <= 0xffff_ffff * 65536) by (nonlinear_arith)
            requires
                f.end_block <= 0xffff_ffff,
                0 < f.block_size <= 65536,
        ;
        assert(d.subrange(at, at + fi.size) =~= x);
        assert(data_of(sb, d, fi) == Ok::<Seq<u8>, Fault>(x));
        plain_files_are_served(sb, d, n.nid, Seq::empty(), fi, None, x);
    } else {
        assert(data_of(sb, d, fi) == Ok::<Seq<u8>, Fault>(Seq::empty()));
    }
}

/// Where the files stand in the image, reading gives their content.
pub proof fn files_read_back(
    s: Seq<u8>,
    sb: Superblock,
    d: Seq<u8>,
    v: Volume,
    f: Fresh,
    tree: NodeView,
    next: int,
)
    requires
        described(sb, d, f, tree, next),
        sized(v),
        with_files(s, v, f, f.list.len() as int) == Ok::<Seq<u8>, Fault>(d),
        forall|k: int|
            0 <= k < f.list.len() ==> (#[trigger] f.list[k]).erofs_compact_clusters == 0,
    ensures
        files_there(sb, d, v, f),
{
    reveal(files_there);
    assert forall|k: int| 0 <= k < f.list.len() && !(#[trigger] f.list[k]).is_dir() implies file_there(
        sb,
        d,
        v,
        f.list[k],
    ) by {
        assert(settled_plan(f, next)) by {
            reveal(described);
        }
        if f.list[k].data_size > 0 {
            files_arrive(s, v, f, next, f.list.len() as int, k);
        }
        plain_file_reads_back(sb, d, v, f, tree, next, k);
    }
}

} // verus!
