//! What the superblocks of fresh and of edited images say: as many blocks as
//! the image has, and as many inodes as the tree has nodes, or as there were
//! before and one for every new file.
use super::append::{
    append_tail, first_modified, first_new, node_numbered, with_content, with_new_file,
};
use super::append_laws::{append_is_sound, appended_to, change_of};
use super::blocks::Volume;
use super::edited_images::{after_edit, edit_is_sound};
use super::erofs_laws::{field32, field64};
use super::ext4_link_laws::renumbered_lengths;
use super::fresh::{
    dir_writes, fresh_plan, fresh_writes, inode_writes, placed_tree, super_bytes, super_length,
    Fresh,
};
use super::fresh_laws::{
    blocks_in_order, content_bounds, holds, inode_bounds, laid_is_there,
    metadata_spares_the_superblock, plans_are_settled, settled_plan,
};
use super::image_laws::{nodes_are_countable, powers_between, root_number_fits};
use super::layout::directory_content;
use super::node::{all_preorder, preorder, NodeView, PayloadView};
use super::overlay::{
    all_settled, all_walked, appended, appended_content, area_count, arranged_tree, empty_tail,
    fresh_number, inode_body, overlay_tail, placed_content, settled_child, super_patches,
    walk_step, walked, with_fresh, xattr_area_of, DirNamesView, TailView, Walk,
};
use super::overlay_images::blocks_have_whole_slots;
use super::overlay_laws::{tail_start, tails_only_grow};
use super::overlay_read_back::{sound_plan, sound_plans_arrive};
use super::patch::{patched, PatchView};
use super::read_back::{files_spare_the_front, moved_length, sized};
use super::rebuild::{plain_conversion, prepared, with_files};
use super::source::content_of;
use super::store::{laid, laid_all, laid_all_joins, laid_all_one};
use crate::buf::{bytes32, bytes64, le32, le64, zeros};
use crate::fs::erofs::Superblock;
use crate::math::{ceil_div, ceil_div_covers};
use vstd::arithmetic::power2::pow2;
use vstd::prelude::*;

verus! {

// ---------------------------------------------------------------------
// Tails
// ---------------------------------------------------------------------
/// A step that creates no inode, and leaves a tail that ends with a block as
/// one that does.
spec fn creates_nothing(sb: Superblock, c: TailView, t: TailView) -> bool {
    &&& t.new_inodes == c.new_inodes
    &&& c.cursor % sb.block_size as int == 0 ==> t.cursor % sb.block_size as int == 0
}

proof fn appending_creates_nothing(sb: Superblock, c: TailView, data: Seq<u8>)
    requires
        0 < sb.block_size,
    ensures
        appended(c, sb.block_size as int, data) matches Ok(r) ==> creates_nothing(sb, c, r.0),
        appended_content(c, sb, data) matches Ok(r) ==> creates_nothing(sb, c, r.0),
        with_content(c, sb, data) matches Ok(r) ==> creates_nothing(sb, c, r.0),
{
    let bs = sb.block_size as int;
    let k = ceil_div(data.len() as int, bs);
    vstd::arithmetic::div_mod::lemma_mod_multiples_vanish(k, c.cursor, bs);
    assert(bs * k == k * bs) by (nonlinear_arith);
}

proof fn placing_creates_nothing(sb: Superblock, c: TailView, d: Seq<u8>, n: NodeView)
    requires
        0 < sb.block_size,
    ensures
        placed_content(c, sb, d, n) matches Ok(r) ==> creates_nothing(sb, c, r.0),
{
    match n.payload {
        PayloadView::Memory(data) => appending_creates_nothing(sb, c, data),
        _ => {
            appending_creates_nothing(sb, c, n.data());
            if let Ok(data) = content_of(sb, d, n.original_nid) {
                appending_creates_nothing(sb, c, data);
            }
        },
    }
}

proof fn fresh_inodes_keep_step(
    sb: Superblock,
    c: TailView,
    n: NodeView,
    size: u32,
    raw: u32,
    area: Seq<u8>,
)
    requires
        0 < sb.block_size,
    ensures
        with_fresh(c, sb, n, size, raw, area) matches Ok(r) ==> creates_nothing(sb, c, r.0),
{
    let nid = fresh_number(sb, c.cursor);
    let x = inode_body(
        NodeView { nid, ..n },
        0,
        area_count(area),
        size,
        raw,
    ) + area;
    appending_creates_nothing(sb, c, x);
}

// ---------------------------------------------------------------------
// Walks
// ---------------------------------------------------------------------
proof fn steps_create_nothing(
    walk: Walk,
    c: TailView,
    sb: Superblock,
    d: Seq<u8>,
    before: Seq<DirNamesView>,
    n: NodeView,
)
    requires
        0 < sb.block_size,
    ensures
        walk_step(walk, c, sb, d, before, n) matches Ok(t) ==> creates_nothing(sb, c, t),
{
    placing_creates_nothing(sb, c, d, n);
    appending_creates_nothing(
        sb,
        c,
        directory_content(n, sb.block_size as int),
    );
}

proof fn walks_create_nothing(
    walk: Walk,
    c: TailView,
    sb: Superblock,
    d: Seq<u8>,
    before: Seq<DirNamesView>,
    n: NodeView,
)
    requires
        0 < sb.block_size,
    ensures
        walked(walk, c, sb, d, before, n) matches Ok(t) ==> creates_nothing(sb, c, t),
    decreases n, 1nat,
{
    steps_create_nothing(walk, c, sb, d, before, n);
    if let Ok(c1) = walk_step(walk, c, sb, d, before, n) {
        all_walks_create_nothing(walk, c1, sb, d, before, n.children);
    }
}

proof fn all_walks_create_nothing(
    walk: Walk,
    c: TailView,
    sb: Superblock,
    d: Seq<u8>,
    before: Seq<DirNamesView>,
    s: Seq<NodeView>,
)
    requires
        0 < sb.block_size,
    ensures
        all_walked(walk, c, sb, d, before, s) matches Ok(t) ==> creates_nothing(sb, c, t),
    decreases s, 0nat,
{
    if s.len() > 0 {
        let front = s.subrange(0, s.len() - 1);
        all_walks_create_nothing(walk, c, sb, d, before, front);
        if let Ok(c1) = all_walked(walk, c, sb, d, before, front) {
            walks_create_nothing(walk, c1, sb, d, before, s[s.len() - 1]);
        }
    }
}

// ---------------------------------------------------------------------
// New files
// ---------------------------------------------------------------------
/// The nodes that have no number yet.
pub open spec fn newcomers(s: Seq<NodeView>) -> Seq<NodeView> {
    s.filter(|n: NodeView| n.nid == 0)
}

proof fn newcomers_add_up(a: Seq<NodeView>, n: NodeView, b: Seq<NodeView>)
    ensures
        newcomers(a + (seq![n] + b)).len() == newcomers(a).len() + (if n.nid == 0 {
            1int
        } else {
            0
        }) + newcomers(b).len(),
{
    let p = |n: NodeView| n.nid == 0;
    Seq::filter_distributes_over_add(a, seq![n] + b, p);
    Seq::filter_distributes_over_add(seq![n], b, p);
    reveal(Seq::filter);
    assert(seq![n].drop_last() =~= Seq::empty());
    assert(Seq::<NodeView>::empty().filter(p) =~= Seq::empty());
    assert(seq![n].filter(p).len() == (if n.nid == 0 {
        1int
    } else {
        0
    }));
}

proof fn every_newcomer_gets_an_inode(
    c: TailView,
    sb: Superblock,
    d: Seq<u8>,
    s: Seq<NodeView>,
    parent: u64,
)
    requires
        0 < sb.block_size,
    ensures
        all_settled(c, sb, d, s, parent) matches Ok(r) ==> {
            &&& r.1.new_inodes == c.new_inodes + newcomers(all_preorder(s)).len()
            &&& c.cursor % sb.block_size as int == 0 ==> r.1.cursor % sb.block_size as int == 0
        },
    decreases s,
{
    if s.len() == 0 {
        reveal(Seq::filter);
        assert(newcomers(all_preorder(s)).len() == 0);
    } else {
        let front = s.subrange(0, s.len() - 1);
        let n = s[s.len() - 1];
        every_newcomer_gets_an_inode(c, sb, d, front, parent);
        newcomers_add_up(all_preorder(front), n, all_preorder(n.children));
        assert(all_preorder(s) == all_preorder(front) + preorder(n));
        if let Ok((_, c1)) = all_settled(c, sb, d, front, parent) {
            newcomer_gets_an_inode(c1, sb, d, n, parent);
            if let Ok((m, c2)) = settled_child(c1, sb, d, n, parent) {
                every_newcomer_gets_an_inode(c2, sb, d, n.children, m.nid);
            }
        }
    }
}

proof fn newcomer_gets_an_inode(
    c: TailView,
    sb: Superblock,
    d: Seq<u8>,
    n: NodeView,
    parent: u64,
)
    requires
        0 < sb.block_size,
    ensures
        settled_child(c, sb, d, n, parent) matches Ok(r) ==> {
            &&& r.1.new_inodes == c.new_inodes + (if n.nid == 0 {
                1int
            } else {
                0
            })
            &&& c.cursor % sb.block_size as int == 0 ==> r.1.cursor % sb.block_size as int == 0
        },
{
    if n.nid == 0 && !n.is_dir() && !n.context_explicit {
        let area = if n.original_nid == 0 {
            Ok(Seq::empty())
        } else {
            xattr_area_of(sb, d, n.original_nid)
        };
        placing_creates_nothing(sb, c, d, n);
        if area is Ok {
            if let Ok((c1, raw, size)) = placed_content(c, sb, d, n) {
                fresh_inodes_keep_step(sb, c1, n, size as u32, raw, area->Ok_0);
            }
        }
    }
}

// ---------------------------------------------------------------------
// Superblocks
// ---------------------------------------------------------------------
/// The fields of the superblock arrive with the plan.
proof fn fields_arrive(
    sb: Superblock,
    d: Seq<u8>,
    body: Seq<PatchView>,
    inodes: u64,
    size: int,
    last: PatchView,
)
    requires
        0 < sb.block_size,
        size % sb.block_size as int == 0,
        0 <= size / sb.block_size as int <= u32::MAX,
        sound_plan(
            body + super_patches(sb, inodes, (size / sb.block_size as int) as u32) + seq![last],
            size,
        ),
    ensures
        says_what_is_there(
            patched(
                d,
                body + super_patches(sb, inodes, (size / sb.block_size as int) as u32) + seq![last],
                size,
            ),
            sb,
            inodes as int,
        ),
{
    let blocks = (size / sb.block_size as int) as u32;
    let sp = super_patches(sb, inodes, blocks);
    let patches = body + sp + seq![last];
    let e = patched(d, patches, size);
    let k = body.len() as int;
    assert(patches[k] == sp[0] && patches[k + 1] == sp[1] && patches[k + 2] == sp[2] && patches[k
        + 3] == sp[3]);
    sound_plans_arrive(d, patches, size, k);
    sound_plans_arrive(d, patches, size, k + 1);
    sound_plans_arrive(d, patches, size, k + 2);
    sound_plans_arrive(d, patches, size, k + 3);
    assert(holds(e, 1060, bytes32(blocks)));
    field32(e, 1032, sb.feature_compat & !1u32);
    field64(e, 1040, inodes);
    field32(e, 1060, blocks);
    assert(zeros(4) =~= bytes32(0));
    field32(e, 1028, 0);
    vstd::arithmetic::div_mod::lemma_fundamental_div_mod(size, sb.block_size as int);
    assert(blocks * sb.block_size == sb.block_size * blocks) by (nonlinear_arith);
}

/// The start of a tail is the start of a block.
proof fn tails_start_with_a_block(sb: Superblock, d: Seq<u8>)
    requires
        0 < sb.block_size,
    ensures
        tail_start(sb, d) % sb.block_size as int == 0,
{
    let bs = sb.block_size as int;
    let k = ceil_div(d.len() as int, bs);
    vstd::arithmetic::div_mod::lemma_mod_multiples_basic(k, bs);
}

/// The tail of an edit counts the new files, and ends with a block.
proof fn edits_count_new_files(
    sb: Superblock,
    d: Seq<u8>,
    t: NodeView,
    before: Seq<DirNamesView>,
    start: int,
)
    requires
        0 < sb.block_size,
        start % sb.block_size as int == 0,
    ensures
        overlay_tail(sb, d, t, before, start) matches Ok(c) ==> c.new_inodes == newcomers(
            all_preorder(t.children),
        ).len() && c.cursor % sb.block_size as int == 0,
{
    every_newcomer_gets_an_inode(empty_tail(start), sb, d, t.children, t.nid);
    if let Ok((children, c1)) = all_settled(empty_tail(start), sb, d, t.children, t.nid) {
        let n = NodeView { children, ..t };
        walks_create_nothing(Walk::Content, c1, sb, d, before, n);
        if let Ok(c2) = walked(Walk::Content, c1, sb, d, before, n) {
            walks_create_nothing(Walk::Directories, c2, sb, d, before, n);
            if let Ok(c3) = walked(Walk::Directories, c2, sb, d, before, n) {
                walks_create_nothing(Walk::Owners, c3, sb, d, before, n);
            }
        }
    }
}

/// What the superblock of an image says that was edited: the number of blocks
/// is that of the image, there are so many inodes, and no checksum.
pub open spec fn says_what_is_there(e: Seq<u8>, sb: Superblock, inodes: int) -> bool {
    &&& le32(e, 1060) * sb.block_size == e.len()
    &&& le64(e, 1040) == inodes
    &&& le32(e, 1032) == sb.feature_compat & !1u32
    &&& le32(e, 1028) == 0
}

/// An edited image consists of whole blocks. Its superblock says how many, and
/// counts the inodes of the image before and one for every node of the tree
/// that had no number. The checksum, which the edit made wrong, is switched off.
pub proof fn edited_superblocks_say_what_is_there(
    sb: Superblock,
    d: Seq<u8>,
    root: NodeView,
    before: Seq<DirNamesView>,
)
    requires
        edit_is_sound(sb, d, root, before),
    ensures
        says_what_is_there(
            after_edit(sb, d, root, before),
            sb,
            sb.inodes + newcomers(all_preorder(arranged_tree(root).children)).len(),
        ),
{
    let start = tail_start(sb, d);
    let t = arranged_tree(root);
    blocks_have_whole_slots(sb);
    tails_start_with_a_block(sb, d);
    edits_count_new_files(sb, d, t, before, start);
    let c = overlay_tail(sb, d, t, before, start)->Ok_0;
    assert(c.cursor >= 0) by {
        tails_only_grow(sb, d, root, before);
        ceil_div_covers(d.len() as int, sb.block_size as int);
    }
    assert(0 <= c.cursor / sb.block_size as int) by (nonlinear_arith)
        requires
            c.cursor >= 0,
            sb.block_size > 0,
    ;
    let last = PatchView { at: start, data: c.tail };
    fields_arrive(sb, d, c.patches, (sb.inodes + c.new_inodes) as u64, c.cursor, last);
}

/// The tail of an addition or a replacement ends with a block behind where it
/// started; there is one inode more where the file is new.
proof fn additions_count_new_files(sb: Superblock, d: Seq<u8>, t: NodeView, start: int)
    requires
        0 < sb.block_size,
        0 <= start,
        start % sb.block_size as int == 0,
    ensures
        append_tail(sb, d, t, start) matches Ok((c, inodes)) ==> c.cursor % sb.block_size as int
            == 0,
{
    let c0 = empty_tail(start);
    match first_new(t, fresh_number(sb, start)) {
        Some((r, file)) => {
            let raw = (start / sb.block_size as int + 1) as u32;
            fresh_inodes_keep_step(sb, c0, file, file.data().len() as u32, raw, Seq::empty());
            if let Ok((c1, _)) = with_fresh(
                c0,
                sb,
                file,
                file.data().len() as u32,
                raw,
                Seq::empty(),
            ) {
                appending_creates_nothing(sb, c1, file.data());
                if let Ok(c2) = with_new_file(c0, sb, file) {
                    if let Some(parent) = node_numbered(r, file.parent_nid) {
                        let data = directory_content(parent, sb.block_size as int);
                        appending_creates_nothing(sb, c2, data);
                    }
                }
            }
        },
        None => {
            if let Some(file) = first_modified(t) {
                appending_creates_nothing(sb, c0, file.data());
            }
        },
    }
}

/// So does an image that one file was added to, or that has a file with new
/// content: there is one inode more where the file is new.
pub proof fn appended_superblocks_say_what_is_there(sb: Superblock, d: Seq<u8>, root: NodeView)
    requires
        append_is_sound(sb, d, root),
    ensures
        change_of(sb, d, root) is Some,
        says_what_is_there(
            appended_to(sb, d, root),
            sb,
            sb.inodes + (if change_of(sb, d, root)->Some_0 is New {
                1int
            } else {
                0
            }),
        ),
{
    let start = tail_start(sb, d);
    let t = arranged_tree(root);
    blocks_have_whole_slots(sb);
    tails_start_with_a_block(sb, d);
    ceil_div_covers(d.len() as int, sb.block_size as int);
    additions_count_new_files(sb, d, t, start);
    let (c, inodes) = append_tail(sb, d, t, start)->Ok_0;
    let last = PatchView { at: start, data: c.tail };
    let patches = c.patches + super_patches(
        sb,
        inodes as u64,
        (c.cursor / sb.block_size as int) as u32,
    ) + seq![last];
    assert(patches[patches.len() - 1] == last);
    assert(c.cursor >= 0);
    assert(0 <= c.cursor / sb.block_size as int) by (nonlinear_arith)
        requires
            c.cursor >= 0,
            sb.block_size > 0,
    ;
    fields_arrive(sb, d, c.patches, inodes as u64, c.cursor, last);
}

// ---------------------------------------------------------------------
// Fresh images
// ---------------------------------------------------------------------
/// Writes that do not reach over so many bytes.
spec fn stay_within(w: Seq<PatchView>, n: int) -> bool {
    forall|k: int|
        0 <= k < w.len() ==> 0 <= (#[trigger] w[k]).at && w[k].at + w[k].data.len() <= n
}

proof fn writes_keep_the_length(s: Seq<u8>, w: Seq<PatchView>)
    requires
        stay_within(w, s.len() as int),
    ensures
        laid_all(s, w).len() == s.len(),
    decreases w.len(),
{
    if w.len() > 0 {
        let front = w.drop_last();
        assert forall|k: int| 0 <= k < front.len() implies 0 <= (#[trigger] front[k]).at
            && front[k].at + front[k].data.len() <= s.len() by {
            assert(front[k] == w[k]);
        }
        writes_keep_the_length(s, front);
        assert(w.last() == w[w.len() - 1]);
    }
}

proof fn inodes_stay_within(f: Fresh, next: int, n: int)
    requires
        settled_plan(f, next),
        0 <= n <= f.list.len(),
    ensures
        stay_within(inode_writes(f, n), f.end_block * f.block_size),
    decreases n,
{
    if n > 0 {
        inodes_stay_within(f, next, n - 1);
        inode_bounds(f, next, n - 1);
        blocks_in_order(f, next);
        assert(f.table_block * f.block_size <= (f.table_block + 1) * f.block_size)
            by (nonlinear_arith)
            requires
                f.block_size > 0,
        ;
    }
}

proof fn directories_stay_within(f: Fresh, next: int, n: int)
    requires
        settled_plan(f, next),
        0 <= n <= f.list.len(),
    ensures
        stay_within(dir_writes(f, n), f.end_block * f.block_size),
    decreases n,
{
    if n > 0 {
        directories_stay_within(f, next, n - 1);
        content_bounds(f, next, n - 1);
        blocks_in_order(f, next);
    }
}

proof fn metadata_stays_within(f: Fresh, next: int)
    requires
        settled_plan(f, next),
    ensures
        stay_within(fresh_writes(f), f.end_block * f.block_size),
{
    let n = f.list.len() as int;
    let bytes = f.end_block * f.block_size;
    inodes_stay_within(f, next, n);
    directories_stay_within(f, next, n);
    blocks_in_order(f, next);
    let blocks = ceil_div(f.table.len() as int, f.block_size);
    ceil_div_covers(f.table.len() as int, f.block_size);
    assert(f.table_block * f.block_size + blocks * f.block_size == f.dir_block * f.block_size)
        by (nonlinear_arith)
        requires
            f.dir_block == f.table_block + blocks,
    ;
    let a = if f.table.len() == 0 {
        Seq::empty()
    } else {
        seq![PatchView { at: f.table_block * f.block_size, data: f.table }]
    };
    assert(stay_within(a, bytes));
    let b = inode_writes(f, n);
    let c = dir_writes(f, n);
    let w = fresh_writes(f);
    assert(w == a + b + c);
    assert forall|k: int| 0 <= k < w.len() implies 0 <= (#[trigger] w[k]).at && w[k].at
        + w[k].data.len() <= bytes by {
        if k < a.len() {
            assert(w[k] == a[k]);
        } else if k < a.len() + b.len() {
            assert(w[k] == b[k - a.len()]);
        } else {
            assert(w[k] == c[k - a.len() - b.len()]);
        }
    }
}

proof fn files_keep_the_length(s: Seq<u8>, v: Volume, f: Fresh, next: int, k: int)
    requires
        settled_plan(f, next),
        sized(v),
        s.len() == f.end_block * f.block_size,
        0 <= k <= f.list.len(),
    ensures
        with_files(s, v, f, k) matches Ok(t) ==> t.len() == s.len(),
    decreases k,
{
    if k > 0 {
        let n = f.list[k - 1];
        files_keep_the_length(s, v, f, next, k - 1);
        content_bounds(f, next, k - 1);
        moved_length(v, n, 0, n.data_size as int);
    }
}

/// A tree that is written as an EROFS image without compression makes an image
/// of whole blocks. Its superblock says how many, and counts the nodes of the
/// tree as inodes.
pub proof fn fresh_superblocks_say_what_is_there(
    v: Volume,
    root: NodeView,
    bits: nat,
    build_time: u64,
)
    requires
        10 <= bits <= 16,
        sized(v),
        root.is_dir(),
        plain_conversion(v, root, pow2(bits) as int, build_time) is Ok,
    ensures
        ({
            let d = plain_conversion(v, root, pow2(bits) as int, build_time)->Ok_0;
            &&& le32(d, 1060) * pow2(bits) == d.len()
            &&& le64(d, 1040) == preorder(prepared(root, pow2(bits) as int, false)).len()
        }),
{
    vstd::arithmetic::power2::lemma2_to64();
    let bs = pow2(bits) as int;
    powers_between(bits);
    let p = prepared(root, bs, false);
    let (tree, f) = fresh_plan(p, bs, 1)->Ok_0;
    plans_are_settled(p, bs, 1);
    root_number_fits(p, bs, 1);
    let next = choose|next: int| #[trigger]
        settled_plan(f, next) && f == placed_tree(tree, next, bs, 1);
    blocks_in_order(f, next);
    let x = super_bytes(f, 0, tree.nid, build_time, f.end_block, zeros(16), 0);
    super_length(f, 0, tree.nid, build_time, f.end_block, zeros(16), 0);
    let head = PatchView { at: 1024, data: x };
    let base = zeros(f.end_block * bs);
    let s0 = laid(base, 1024, x);
    laid_all_one(base, head);
    laid_all_joins(base, seq![head], fresh_writes(f));
    let s = laid_all(base, seq![head] + fresh_writes(f));
    laid_is_there(base, 1024, x);
    metadata_spares_the_superblock(s0, f, next, x);
    metadata_stays_within(f, next);
    assert(s0.len() == base.len());
    writes_keep_the_length(s0, fresh_writes(f));
    let n = f.list.len() as int;
    files_spare_the_front(s, v, f, next, n, 1024, x);
    files_keep_the_length(s, v, f, next, n);
    nodes_are_countable(f, next);
    renumbered_lengths(tree, p);
    let d = with_files(s, v, f, n)->Ok_0;
    counts_stand(f, tree.nid, build_time, d);
    assert(f.end_block * bs == le32(d, 1060) * pow2(bits)) by (nonlinear_arith)
        requires
            f.end_block == le32(d, 1060),
            bs == pow2(bits),
    ;
}

proof fn counts_stand(f: Fresh, root_nid: u64, build_time: u64, d: Seq<u8>)
    requires
        holds(d, 1024, super_bytes(f, 0, root_nid, build_time, f.end_block, zeros(16), 0)),
        0 <= f.end_block <= u32::MAX,
        f.list.len() <= u64::MAX,
    ensures
        le32(d, 1060) == f.end_block,
        le64(d, 1040) == f.list.len(),
{
    reveal(super_bytes);
    let x = super_bytes(f, 0, root_nid, build_time, f.end_block, zeros(16), 0);
    assert(x.subrange(16, 24) =~= bytes64(f.list.len() as u64));
    assert(x.subrange(36, 40) =~= bytes32(f.end_block as u32));
    assert(d.subrange(1040, 1048) =~= x.subrange(16, 24));
    assert(d.subrange(1060, 1064) =~= x.subrange(36, 40));
    field64(d, 1040, f.list.len() as u64);
    field32(d, 1060, f.end_block as u32);
}

} // verus!
