//! Whole EROFS images: what was written reads back.
use super::blocks::Volume;
use super::erofs_laws::{field16, field32, field64};
use super::fresh::{fresh_plan, fresh_writes, log2, super_bytes, super_length, Fresh};
use super::fresh_laws::{
    apart, blocks_in_order, carries, holds, laid_is_there, metadata_arrives,
    metadata_spares_the_superblock, metadata_stays, plans_are_settled, settled_plan, write_survives,
    writes_never_shorten,
};
use super::layout::{clear_slot_is_first, SUPER_END, SUPER_START};
use super::node::{all_preorder, preorder, sorted_tree, NodeView};
use super::patch::PatchView;
use super::read_back::{
    described, files_keep_the_metadata, files_read_back, files_spare_the_front, nodes_are_listed,
    numbering_keeps_the_tree, readable, regained, regained_but_for_numbers, renumbered,
    renumbered_is_readable, sized, tree_reads,
};
use super::rebuild::{marked, plain_conversion, plain_image, prepared, super_fields, with_files};
use super::source::tree_of;
use super::store::{laid, laid_all, laid_all_joins, laid_all_one, resized};
use crate::buf::{bytes16, bytes32, bytes64, le32, zeros};
use crate::error::Fault;
use crate::fs::erofs::{superblock, superblock_of, SuperView, Superblock, MAGIC};
use crate::image::disk_read;
use vstd::arithmetic::power2::pow2;
use vstd::prelude::*;

verus! {

// ---------------------------------------------------------------------
// The superblock
// ---------------------------------------------------------------------
/// A power of two can be halved as often as its exponent says.
pub proof fn log2_of_pow2(bits: nat)
    ensures
        log2(pow2(bits) as int) == bits,
    decreases bits,
{
    vstd::arithmetic::power2::lemma2_to64();
    if bits > 0 {
        vstd::arithmetic::power2::lemma_pow2_unfold(bits);
        vstd::arithmetic::power2::lemma_pow2_pos((bits - 1) as nat);
        log2_of_pow2((bits - 1) as nat);
    }
}

/// Reading the superblock of a fresh image gives back what was written.
pub proof fn superblocks_read_back(
    f: Fresh,
    bits: nat,
    compat: u32,
    root_nid: u64,
    build_time: u64,
    blocks: int,
    volume: Seq<u8>,
    ro_compat: u32,
)
    requires
        9 <= bits <= 20,
        f.block_size == pow2(bits),
        root_nid <= 0xffff,
        0 < blocks <= u32::MAX,
        0 <= f.meta_block <= u32::MAX,
        0 <= f.table_block <= u32::MAX,
        f.list.len() <= u64::MAX,
        volume.len() == 16,
    ensures
        superblock_of(
            super_bytes(f, compat, root_nid, build_time, blocks, volume, ro_compat),
        ) == Ok::<SuperView, Fault>(
            SuperView {
                block_size: f.block_size as u64,
                root_nid,
                meta_blkaddr: f.meta_block as u64,
                feature_compat: compat,
                feature_incompat: 0,
                feature_ro_compat: ro_compat,
                volume,
                build_time,
                build_nsec: 0,
                inodes: f.list.len() as u64,
                xattr_blkaddr: if f.table.len() == 0 {
                    0
                } else {
                    f.table_block as u64
                },
            },
        ),
{
    let x = super_bytes(f, compat, root_nid, build_time, blocks, volume, ro_compat);
    super_layout(f, compat, root_nid, build_time, blocks, volume, ro_compat);
    log2_of_pow2(bits);
    crate::fs::erofs::block_size_bounds(bits);
    let table: u32 = if f.table.len() == 0 {
        0
    } else {
        f.table_block as u32
    };
    field32(x, 0, MAGIC);
    field32(x, 8, compat);
    field16(x, 14, root_nid as u16);
    field64(x, 16, f.list.len() as u64);
    field64(x, 24, build_time);
    zero32(x, 32);
    field32(x, 36, blocks as u32);
    field32(x, 40, f.meta_block as u32);
    field32(x, 44, table);
    zero32(x, 80);
    field32(x, 100, ro_compat);
}

proof fn zero32(x: Seq<u8>, at: int)
    requires
        0 <= at,
        at + 4 <= x.len(),
        x.subrange(at, at + 4) =~= zeros(4),
    ensures
        le32(x, at) == 0,
{
    let w = x.subrange(at, at + 4);
    assert(w[0] == 0 && w[1] == 0 && w[2] == 0 && w[3] == 0);
}

proof fn super_layout(
    f: Fresh,
    compat: u32,
    root_nid: u64,
    build_time: u64,
    blocks: int,
    volume: Seq<u8>,
    ro_compat: u32,
)
    requires
        volume.len() == 16,
    ensures
        ({
            let x = super_bytes(f, compat, root_nid, build_time, blocks, volume, ro_compat);
            &&& x.len() == 128
            &&& x.subrange(0, 4) =~= bytes32(MAGIC)
            &&& x.subrange(8, 12) =~= bytes32(compat)
            &&& x[12] == log2(f.block_size) as u8
            &&& x.subrange(14, 16) =~= bytes16(root_nid as u16)
            &&& x.subrange(16, 24) =~= bytes64(f.list.len() as u64)
            &&& x.subrange(24, 32) =~= bytes64(build_time)
            &&& x.subrange(32, 36) =~= zeros(4)
            &&& x.subrange(36, 40) =~= bytes32(blocks as u32)
            &&& x.subrange(40, 44) =~= bytes32(f.meta_block as u32)
            &&& x.subrange(44, 48) =~= bytes32(
                if f.table.len() == 0 {
                    0
                } else {
                    f.table_block as u32
                },
            )
            &&& x.subrange(64, 80) =~= volume
            &&& x.subrange(80, 84) =~= zeros(4)
            &&& x.subrange(100, 104) =~= bytes32(ro_compat)
        }),
{
    crate::buf::le64_of_bytes64(f.list.len() as u64);
    crate::buf::le64_of_bytes64(build_time);
    let table: u32 = if f.table.len() == 0 {
        0
    } else {
        f.table_block as u32
    };
    let bits = seq![log2(f.block_size) as u8, 0u8];
    let front = bytes32(MAGIC) + zeros(4) + bytes32(compat) + bits + bytes16(root_nid as u16)
        + bytes64(f.list.len() as u64) + bytes64(build_time);
    let middle = zeros(4) + bytes32(blocks as u32) + bytes32(f.meta_block as u32) + bytes32(table);
    let back = zeros(16) + volume + zeros(20) + bytes32(ro_compat) + zeros(24);
    let x = super_bytes(f, compat, root_nid, build_time, blocks, volume, ro_compat);
    assert(x =~= front + middle + back) by {
        reveal(super_bytes);
    }
    front_parts(
        bytes32(MAGIC),
        zeros(4),
        bytes32(compat),
        bits,
        bytes16(root_nid as u16),
        bytes64(f.list.len() as u64),
        bytes64(build_time),
        middle + back,
    );
    assert(x =~= front + (middle + back));
    assert(x[12] == x.subrange(12, 14)[0]);
    middle_parts(
        front,
        zeros(4),
        bytes32(blocks as u32),
        bytes32(f.meta_block as u32),
        bytes32(table),
        back,
    );
    back_parts(front + middle, zeros(16), volume, zeros(20), bytes32(ro_compat), zeros(24));
    assert(x.subrange(80, 84) =~= x.subrange(80, 100).subrange(0, 4));
}

proof fn front_parts(
    a: Seq<u8>,
    b: Seq<u8>,
    c: Seq<u8>,
    d: Seq<u8>,
    e: Seq<u8>,
    f: Seq<u8>,
    g: Seq<u8>,
    rest: Seq<u8>,
)
    requires
        a.len() == 4,
        b.len() == 4,
        c.len() == 4,
        d.len() == 2,
        e.len() == 2,
        f.len() == 8,
        g.len() == 8,
    ensures
        ({
            let x = a + b + c + d + e + f + g + rest;
            &&& x.subrange(0, 4) == a
            &&& x.subrange(8, 12) == c
            &&& x.subrange(12, 14) == d
            &&& x.subrange(14, 16) == e
            &&& x.subrange(16, 24) == f
            &&& x.subrange(24, 32) == g
        }),
{
}

proof fn middle_parts(
    front: Seq<u8>,
    a: Seq<u8>,
    b: Seq<u8>,
    c: Seq<u8>,
    d: Seq<u8>,
    rest: Seq<u8>,
)
    requires
        front.len() == 32,
        a.len() == 4,
        b.len() == 4,
        c.len() == 4,
        d.len() == 4,
    ensures
        ({
            let x = front + (a + b + c + d) + rest;
            &&& x.subrange(32, 36) == a
            &&& x.subrange(36, 40) == b
            &&& x.subrange(40, 44) == c
            &&& x.subrange(44, 48) == d
        }),
{
}

proof fn back_parts(
    front: Seq<u8>,
    a: Seq<u8>,
    b: Seq<u8>,
    c: Seq<u8>,
    d: Seq<u8>,
    e: Seq<u8>,
)
    requires
        front.len() == 48,
        a.len() == 16,
        b.len() == 16,
        c.len() == 20,
        d.len() == 4,
        e.len() == 24,
    ensures
        ({
            let x = front + (a + b + c + d + e);
            &&& x.len() == 128
            &&& x.subrange(64, 80) == b
            &&& x.subrange(80, 100) == c
            &&& x.subrange(100, 104) == d
        }),
{
}

// ---------------------------------------------------------------------
// Images
// ---------------------------------------------------------------------
/// Something holds of every node of a tree.
pub open spec fn throughout(n: NodeView, p: spec_fn(NodeView) -> bool) -> bool
    decreases n,
{
    &&& p(n)
    &&& forall|i: int| 0 <= i < n.children.len() ==> throughout(#[trigger] n.children[i], p)
}

/// What holds of every node of a tree holds of every one that is listed.
pub proof fn throughout_the_list(n: NodeView, p: spec_fn(NodeView) -> bool, j: int)
    requires
        throughout(n, p),
        0 <= j < preorder(n).len(),
    ensures
        p(preorder(n)[j]),
    decreases n,
{
    if j > 0 {
        assert(preorder(n)[j] == all_preorder(n.children)[j - 1]);
        throughout_all(n.children, p, j - 1);
    }
}

proof fn throughout_all(s: Seq<NodeView>, p: spec_fn(NodeView) -> bool, j: int)
    requires
        forall|i: int| 0 <= i < s.len() ==> throughout(#[trigger] s[i], p),
        0 <= j < all_preorder(s).len(),
    ensures
        p(all_preorder(s)[j]),
    decreases s,
{
    let front = s.subrange(0, s.len() - 1);
    let last = s[s.len() - 1];
    let count = all_preorder(front).len();
    if j < count {
        assert(all_preorder(s)[j] == all_preorder(front)[j]);
        assert forall|i: int| 0 <= i < front.len() implies throughout(#[trigger] front[i], p) by {
            assert(front[i] == s[i]);
        }
        throughout_all(front, p, j);
    } else {
        assert(all_preorder(s)[j] == preorder(last)[j - count]);
        throughout_the_list(last, p, j - count);
    }
}

/// What does not depend on numbers holds of a tree whatever its numbers.
pub proof fn throughout_renumbered(t: NodeView, n: NodeView, p: spec_fn(NodeView) -> bool)
    requires
        renumbered(t, n),
        throughout(n, p),
        forall|a: NodeView, b: NodeView| #[trigger] renumbered(a, b) && p(b) ==> p(a),
    ensures
        throughout(t, p),
    decreases n,
{
    assert forall|i: int| 0 <= i < t.children.len() implies throughout(
        #[trigger] t.children[i],
        p,
    ) by {
        assert(renumbered(t.children[i], n.children[i]));
        assert(throughout(n.children[i], p));
        throughout_renumbered(t.children[i], n.children[i], p);
    }
}

/// A node that is not stored compressed.
pub open spec fn is_unpacked() -> spec_fn(NodeView) -> bool {
    |n: NodeView| n.erofs_compact_clusters == 0
}

proof fn unmarked_is_unpacked(n: NodeView, block_size: int)
    ensures
        throughout(marked(n, block_size, false), is_unpacked()),
    decreases n,
{
    let m = marked(n, block_size, false);
    assert forall|i: int| 0 <= i < m.children.len() implies throughout(
        #[trigger] m.children[i],
        is_unpacked(),
    ) by {
        unmarked_is_unpacked(n.children[i], block_size);
    }
}

/// The root has a number that the superblock has room for.
pub proof fn root_number_fits(root: NodeView, block_size: int, meta_block: int)
    requires
        512 <= block_size <= 65536,
        0 <= meta_block,
        fresh_plan(root, block_size, meta_block) is Ok,
    ensures
        fresh_plan(root, block_size, meta_block)->Ok_0.0.nid <= 36,
        renumbered(fresh_plan(root, block_size, meta_block)->Ok_0.0, root),
{
    let base = meta_block * block_size;
    assert(0 <= base) by (nonlinear_arith)
        requires
            0 <= meta_block,
            512 <= block_size,
            base == meta_block * block_size,
    ;
    clear_slot_is_first(1, base, root.slots());
    numbering_keeps_the_tree(root, 1, 1, base);
}

/// An image that holds the metadata and the files of a plan reads back as the
/// tree that was planned.
pub proof fn plans_read_back(
    sb: Superblock,
    s: Seq<u8>,
    d: Seq<u8>,
    v: Volume,
    root: NodeView,
    name: Seq<char>,
)
    requires
        512 <= sb.block_size <= 65536,
        root.is_dir(),
        readable(root, 0),
        throughout(root, is_unpacked()),
        sized(v),
        fresh_plan(root, sb.block_size as int, sb.meta_blkaddr as int) matches Ok((tree, f)) && {
            &&& carries(s, f)
            &&& f.end_block * f.block_size <= d.len()
            &&& with_files(s, v, f, f.list.len() as int) == Ok::<Seq<u8>, Fault>(d)
            &&& f.table.len() > 0 ==> sb.xattr_blkaddr == f.table_block
            &&& f.table.len() <= 4 * u32::MAX
        },
    ensures
        ({
            let (tree, f) = fresh_plan(root, sb.block_size as int, sb.meta_blkaddr as int)->Ok_0;
            tree_of(sb, d, tree.nid, name, 0) matches Ok(r) && r.name == name && regained(
                sb,
                d,
                v,
                r,
                root,
            )
        }),
{
    let bs = sb.block_size as int;
    let mb = sb.meta_blkaddr as int;
    let (tree, f) = fresh_plan(root, bs, mb)->Ok_0;
    plans_are_settled(root, bs, mb);
    root_number_fits(root, bs, mb);
    let next = choose|next: int| #[trigger]
        settled_plan(f, next) && f == super::fresh::placed_tree(tree, next, bs, mb);
    files_keep_the_metadata(s, v, f, next, f.list.len() as int);
    assert(described(sb, d, f, tree, next)) by {
        reveal(described);
    }
    renumbered_is_readable(tree, root, 0);
    throughout_renumbered(tree, root, is_unpacked());
    assert forall|k: int| 0 <= k < f.list.len() implies (
    #[trigger] f.list[k]).erofs_compact_clusters == 0 by {
        throughout_the_list(tree, is_unpacked(), k);
    }
    files_read_back(s, sb, d, v, f, tree, next);
    assert forall|j: int| 0 <= j < preorder(tree).len() implies f.list.contains(
        #[trigger] preorder(tree)[j],
    ) by {
        assert(f.list[j] == preorder(tree)[j]);
    }
    nodes_are_listed(f.list, tree, root);
    tree_reads(sb, d, v, f, tree, next, tree, name, 0);
    let r = tree_of(sb, d, tree.nid, name, 0)->Ok_0;
    regained_but_for_numbers(sb, d, v, r, tree, root);
}

/// The table of contexts of a tree is no larger than numbers of entries
/// reach.
pub open spec fn contexts_fit(root: NodeView, block_size: int, meta_block: int) -> bool {
    fresh_plan(root, block_size, meta_block) matches Ok((_, f)) ==> f.table.len() <= 4 * u32::MAX
}

/// A tree that is written as an EROFS image without compression reads back:
/// the image has a superblock, and the tree that it leads to has the names,
/// modes, owners, labels, sizes and contents that were written.
pub proof fn plain_conversions_read_back(
    v: Volume,
    root: NodeView,
    bits: nat,
    build_time: u64,
    sb: Superblock,
    name: Seq<char>,
)
    requires
        10 <= bits <= 16,
        sized(v),
        root.is_dir(),
        readable(prepared(root, pow2(bits) as int, false), 0),
        contexts_fit(prepared(root, pow2(bits) as int, false), pow2(bits) as int, 1),
        plain_conversion(v, root, pow2(bits) as int, build_time) is Ok,
    ensures
        ({
            let d = plain_conversion(v, root, pow2(bits) as int, build_time)->Ok_0;
            &&& superblock(d) is Ok
            &&& superblock(d) == Ok::<SuperView, Fault>(sb@) ==> {
                &&& sb.block_size == pow2(bits)
                &&& sb.build_time == build_time
                &&& tree_of(sb, d, sb.root_nid, name, 0) matches Ok(r) && regained(
                    sb,
                    d,
                    v,
                    r,
                    prepared(root, pow2(bits) as int, false),
                )
            }
        }),
{
    vstd::arithmetic::power2::lemma2_to64();
    let bs = pow2(bits) as int;
    powers_between(bits);
    let p = prepared(root, bs, false);
    assert(p.is_dir());
    unmarked_is_unpacked(sorted_tree(root), bs);
    let (tree, f) = fresh_plan(p, bs, 1)->Ok_0;
    plans_are_settled(p, bs, 1);
    root_number_fits(p, bs, 1);
    let next = choose|next: int| #[trigger]
        settled_plan(f, next) && f == super::fresh::placed_tree(tree, next, bs, 1);
    blocks_in_order(f, next);
    let x = super_bytes(f, 0, tree.nid, build_time, f.end_block, zeros(16), 0);
    super_length(f, 0, tree.nid, build_time, f.end_block, zeros(16), 0);
    let head = PatchView { at: 1024, data: x };
    let base = zeros(f.end_block * bs);
    let s0 = laid(base, 1024, x);
    laid_all_one(base, head);
    laid_all_joins(base, seq![head], fresh_writes(f));
    let s = laid_all(base, seq![head] + fresh_writes(f));
    laid_is_there(base, 1024, x);
    metadata_arrives(s0, f, next);
    metadata_spares_the_superblock(s0, f, next, x);
    let n = f.list.len() as int;
    let d = with_files(s, v, f, n)->Ok_0;
    files_spare_the_front(s, v, f, next, n, 1024, x);
    nodes_are_countable(f, next);
    superblocks_read_back(f, bits, 0, tree.nid, build_time, f.end_block, zeros(16), 0);
    assert(disk_read(d, 1024, 128) == Ok::<Seq<u8>, Fault>(x));
    if superblock(d) == Ok::<SuperView, Fault>(sb@) {
        plans_read_back(sb, s, d, v, p, name);
    }
}

pub proof fn powers_between(bits: nat)
    requires
        10 <= bits <= 16,
    ensures
        1024 <= pow2(bits) <= 65536,
{
    vstd::arithmetic::power2::lemma2_to64();
}

/// There are no more nodes than numbers.
pub proof fn nodes_are_countable(f: Fresh, next: int)
    requires
        settled_plan(f, next),
    ensures
        f.list.len() <= u64::MAX,
{
    super::fresh_laws::slots_count(f.list, 1, next, f.meta_block * f.block_size);
    super::fresh_laws::inode_bounds(f, next, f.list.len() - 1);
}

// ---------------------------------------------------------------------
// Rebuilt images
// ---------------------------------------------------------------------
/// Writes to the superblock leave the metadata alone.
proof fn superblock_spares_the_metadata(d: Seq<u8>, f: Fresh, next: int, w: Seq<PatchView>)
    requires
        settled_plan(f, next),
        carries(d, f),
        f.block_size >= 2048 || f.meta_block * f.block_size >= 1024,
        forall|k: int|
            0 <= k < w.len() ==> SUPER_START <= (#[trigger] w[k]).at && w[k].at + w[k].data.len()
                <= SUPER_END,
    ensures
        carries(laid_all(d, w), f),
    decreases w.len(),
{
    if w.len() > 0 {
        assert forall|k: int| 0 <= k < w.drop_last().len() implies SUPER_START <= (
        #[trigger] w.drop_last()[k]).at && w.drop_last()[k].at + w.drop_last()[k].data.len()
            <= SUPER_END by {
            assert(w.drop_last()[k] == w[k]);
        }
        superblock_spares_the_metadata(d, f, next, w.drop_last());
        assert(w.last() == w[w.len() - 1]);
        metadata_stays(laid_all(d, w.drop_last()), f, next, w.last().at, w.last().data);
    }
}

/// The places of the fields of a superblock, in the order in which a rebuild
/// sets them.
spec fn field_places() -> Seq<(int, int)> {
    seq![
        (1024, 4),
        (1032, 4),
        (1036, 1),
        (1038, 2),
        (1040, 8),
        (1048, 8),
        (1056, 4),
        (1060, 4),
        (1064, 4),
        (1088, 16),
        (1104, 4),
        (1124, 4),
        (1068, 4),
    ]
}

proof fn fields_are_apart(sb: Superblock, f: Fresh, root_nid: u64, k: int)
    requires
        0 <= k < super_fields(sb, f, root_nid).len(),
    ensures
        ({
            let w = super_fields(sb, f, root_nid);
            &&& w[k].at == field_places()[k].0
            &&& w[k].data.len() == field_places()[k].1
            &&& SUPER_START <= w[k].at
            &&& w[k].at + w[k].data.len() <= SUPER_END
            &&& apart(w.skip(k + 1), w[k].at, w[k].data.len() as int)
        }),
{
    let w = super_fields(sb, f, root_nid);
    places_match(sb, f, root_nid);
    assert forall|j: int| 0 <= j < w.skip(k + 1).len() implies (#[trigger] w.skip(k + 1)[j]).at >= 0
        && (w.skip(k + 1)[j].at + w.skip(k + 1)[j].data.len() <= w[k].at || w[k].at
        + w[k].data.len() <= w.skip(k + 1)[j].at) by {
        let i = k + 1 + j;
        assert(w.skip(k + 1)[j] == w[i]);
        assert(w[i].at == field_places()[i].0 && w[i].data.len() == field_places()[i].1);
        assert(w[k].at == field_places()[k].0 && w[k].data.len() == field_places()[k].1);
        places_are_apart(k, i);
    }
    assert(w[k].at == field_places()[k].0 && w[k].data.len() == field_places()[k].1);
}

proof fn places_are_apart(i: int, j: int)
    requires
        0 <= i < j < 13,
    ensures
        field_places()[i].0 + field_places()[i].1 <= field_places()[j].0 || field_places()[j].0
            + field_places()[j].1 <= field_places()[i].0,
{
}

#[verifier::rlimit(40)]
proof fn places_match(sb: Superblock, f: Fresh, root_nid: u64)
    ensures
        super_fields(sb, f, root_nid).len() == if f.table.len() == 0 {
            12int
        } else {
            13
        },
        forall|k: int|
            0 <= k < super_fields(sb, f, root_nid).len() ==> (#[trigger] super_fields(
                sb,
                f,
                root_nid,
            )[k]).at == field_places()[k].0 && super_fields(sb, f, root_nid)[k].data.len()
                == field_places()[k].1,
{
    crate::buf::le64_of_bytes64(f.list.len() as u64);
    crate::buf::le64_of_bytes64(sb.build_time);
}

/// A field of a rebuilt superblock, once everything is written.
proof fn field_stands(
    base: Seq<u8>,
    sb: Superblock,
    v: Volume,
    f: Fresh,
    next: int,
    root_nid: u64,
    k: int,
)
    requires
        settled_plan(f, next),
        f.block_size >= 2048 || f.meta_block * f.block_size >= 1024,
        0 <= k < super_fields(sb, f, root_nid).len(),
    ensures
        with_files(
            laid_all(base, super_fields(sb, f, root_nid)),
            v,
            f,
            f.list.len() as int,
        ) matches Ok(d) ==> holds(
            d,
            super_fields(sb, f, root_nid)[k].at,
            super_fields(sb, f, root_nid)[k].data,
        ),
{
    let w = super_fields(sb, f, root_nid);
    fields_are_apart(sb, f, root_nid, k);
    blocks_in_order(f, next);
    write_survives(base, w, k);
    files_spare_the_front(
        laid_all(base, w),
        v,
        f,
        next,
        f.list.len() as int,
        w[k].at,
        w[k].data,
    );
}

proof fn window_of(d: Seq<u8>, x: Seq<u8>, at: int, y: Seq<u8>)
    requires
        holds(d, at, y),
        holds(d, 1024, x),
        1024 <= at,
        at + y.len() <= 1024 + x.len(),
    ensures
        x.subrange(at - 1024, at - 1024 + y.len()) == y,
{
    assert forall|i: int| 0 <= i < y.len() implies x[at - 1024 + i] == y[i] by {
        assert(d.subrange(at, at + y.len())[i] == y[i]);
        assert(d.subrange(1024, 1024int + x.len())[at - 1024 + i] == x[at - 1024 + i]);
    }
    assert(x.subrange(at - 1024, at - 1024 + y.len()) =~= y);
}

/// A tree that an EROFS image is rebuilt with, without compression, reads
/// back: the image has a superblock with the features, the time and the name
/// that it had, and the tree that it leads to has the names, modes, owners,
/// labels, sizes and contents that were written. Blocks must be so large, or
/// the inodes so far behind, that nothing comes to stand on the superblock.
pub proof fn plain_rebuilds_read_back(
    old_sb: Superblock,
    old_d: Seq<u8>,
    root: NodeView,
    sb: Superblock,
    name: Seq<char>,
)
    requires
        old_sb.wf(),
        old_sb.block_size <= 65536,
        old_sb.block_size >= 2048 || old_sb.meta_blkaddr * old_sb.block_size >= 1024,
        root.is_dir(),
        readable(prepared(root, old_sb.block_size as int, false), 0),
        contexts_fit(
            prepared(root, old_sb.block_size as int, false),
            old_sb.block_size as int,
            old_sb.meta_blkaddr as int,
        ),
        plain_image(old_sb, old_d, root) is Ok,
    ensures
        ({
            let d = plain_image(old_sb, old_d, root)->Ok_0;
            let v = Volume::Erofs { sb: old_sb, d: old_d };
            &&& superblock(d) is Ok
            &&& superblock(d) == Ok::<SuperView, Fault>(sb@) ==> {
                &&& sb.block_size == old_sb.block_size
                &&& sb.meta_blkaddr == old_sb.meta_blkaddr
                &&& sb.feature_compat == old_sb.feature_compat & !1u32
                &&& sb.feature_incompat == old_sb.feature_incompat
                &&& sb.feature_ro_compat == old_sb.feature_ro_compat
                &&& sb.build_time == old_sb.build_time
                &&& sb.build_nsec == old_sb.build_nsec
                &&& sb.volume@ == old_sb.volume@
                &&& tree_of(sb, d, sb.root_nid, name, 0) matches Ok(r) && regained(
                    sb,
                    d,
                    v,
                    r,
                    prepared(root, old_sb.block_size as int, false),
                )
            }
        }),
{
    let bs = old_sb.block_size as int;
    let mb = old_sb.meta_blkaddr as int;
    let bits = choose|bits: nat| 9 <= bits <= 20 && old_sb.block_size == #[trigger] pow2(bits);
    crate::fs::erofs::block_size_bounds(bits);
    log2_of_pow2(bits);
    let p = prepared(root, bs, false);
    assert(p.is_dir());
    unmarked_is_unpacked(sorted_tree(root), bs);
    let (tree, f) = fresh_plan(p, bs, mb)->Ok_0;
    plans_are_settled(p, bs, mb);
    root_number_fits(p, bs, mb);
    let next = choose|next: int| #[trigger]
        settled_plan(f, next) && f == super::fresh::placed_tree(tree, next, bs, mb);
    blocks_in_order(f, next);
    let base = resized(old_d, f.end_block * bs);
    let mid = laid_all(base, fresh_writes(f));
    let w = super_fields(old_sb, f, tree.nid);
    let s = laid_all(mid, w);
    laid_all_joins(base, fresh_writes(f), w);
    assert(s == laid_all(base, fresh_writes(f) + w));
    let v = Volume::Erofs { sb: old_sb, d: old_d };
    let d = plain_image(old_sb, old_d, root)->Ok_0;
    metadata_arrives(base, f, next);
    assert forall|k: int| 0 <= k < w.len() implies SUPER_START <= (#[trigger] w[k]).at && w[k].at
        + w[k].data.len() <= SUPER_END by {
        fields_are_apart(old_sb, f, tree.nid, k);
    }
    superblock_spares_the_metadata(mid, f, next, w);
    writes_never_shorten(mid, w);
    files_keep_the_metadata(s, v, f, next, f.list.len() as int);
    let nothing = Seq::<u8>::empty();
    assert(s.subrange(0, 0) =~= nothing);
    files_spare_the_front(s, v, f, next, f.list.len() as int, 0, nothing);
    rebuilt_superblock(mid, old_sb, v, f, next, tree.nid, bits, d);
    if superblock(d) == Ok::<SuperView, Fault>(sb@) {
        plans_read_back(sb, s, d, v, p, name);
    }
}

proof fn rebuilt_superblock(
    base: Seq<u8>,
    sb: Superblock,
    v: Volume,
    f: Fresh,
    next: int,
    root_nid: u64,
    bits: nat,
    d: Seq<u8>,
)
    requires
        settled_plan(f, next),
        f.block_size >= 2048 || f.meta_block * f.block_size >= 1024,
        9 <= bits <= 20,
        sb.block_size == pow2(bits),
        f.block_size == sb.block_size,
        f.meta_block == sb.meta_blkaddr,
        root_nid <= 0xffff,
        f.end_block * f.block_size <= d.len(),
        with_files(laid_all(base, super_fields(sb, f, root_nid)), v, f, f.list.len() as int)
            == Ok::<Seq<u8>, Fault>(d),
    ensures
        superblock(d) matches Ok(view) && {
            &&& view.block_size == sb.block_size
            &&& view.root_nid == root_nid
            &&& view.meta_blkaddr == sb.meta_blkaddr
            &&& view.feature_compat == sb.feature_compat & !1u32
            &&& view.feature_incompat == sb.feature_incompat
            &&& view.feature_ro_compat == sb.feature_ro_compat
            &&& view.build_time == sb.build_time
            &&& view.build_nsec == sb.build_nsec
            &&& view.volume == sb.volume@
            &&& f.table.len() > 0 ==> view.xattr_blkaddr == f.table_block
        },
{
    let w = super_fields(sb, f, root_nid);
    blocks_in_order(f, next);
    places_match(sb, f, root_nid);
    let x = d.subrange(1024, 1152);
    assert(holds(d, 1024, x));
    assert forall|k: int| 0 <= k < w.len() implies x.subrange(
        field_places()[k].0 - 1024,
        field_places()[k].0 - 1024 + field_places()[k].1,
    ) == (#[trigger] w[k]).data by {
        field_stands(base, sb, v, f, next, root_nid, k);
        fields_are_apart(sb, f, root_nid, k);
        window_of(d, x, w[k].at, w[k].data);
    }
    log2_of_pow2(bits);
    assert(w[0].data == bytes32(MAGIC));
    field32(x, 0, MAGIC);
    assert(w[1].data == bytes32(sb.feature_compat & !1u32));
    field32(x, 8, sb.feature_compat & !1u32);
    assert(w[2].data == seq![bits as u8]);
    assert(x.subrange(12, 13)[0] == bits as u8);
    assert(w[3].data == bytes16(root_nid as u16));
    field16(x, 14, root_nid as u16);
    assert(w[5].data == bytes64(sb.build_time));
    field64(x, 24, sb.build_time);
    assert(w[6].data == bytes32(sb.build_nsec));
    field32(x, 32, sb.build_nsec);
    assert(w[7].data == bytes32(f.end_block as u32));
    field32(x, 36, f.end_block as u32);
    assert(w[8].data == bytes32(sb.meta_blkaddr as u32));
    field32(x, 40, sb.meta_blkaddr as u32);
    assert(w[9].data == sb.volume@);
    assert(w[10].data == bytes32(sb.feature_incompat));
    field32(x, 80, sb.feature_incompat);
    assert(w[11].data == bytes32(sb.feature_ro_compat));
    field32(x, 100, sb.feature_ro_compat);
    if f.table.len() > 0 {
        assert(w[12].data == bytes32(f.table_block as u32));
        field32(x, 44, f.table_block as u32);
    }
}

} // verus!
