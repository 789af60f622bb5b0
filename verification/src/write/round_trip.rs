//! From ext4 to EROFS and back again: nothing is lost on the way.
use super::blocks::{served, Volume};
use super::convert::{
    all_with_targets, erofs_as_ext4, ext4_as_erofs, ext4_profile, exported, with_targets,
    CONVERTED_INODE_SIZE,
};
use super::ext4_image_laws::ext4_rebuilds_read_back;
use super::ext4_inode::label_fits;
use super::ext4_layout::ROOT_INODE;
use super::ext4_source::ext4_tree;
use super::ext4_tree_laws::{plain_target, readable_ext4, regained_ext4, serves_the_same};
use super::image_laws::{contexts_fit, plain_conversions_read_back, throughout};
use super::node::NodeView;
use super::packed::{indexable, packs_faithfully};
use super::packed_images::packed_images_read_back;
use super::read_back::{label_of, readable, regained, source_content};
use super::rebuild::prepared;
use super::serve_laws::{memory_is_served, serves, sources_give_the_content};
use super::source::{content_of, kids_of, tree_of, MAX_DEPTH};
use crate::buf::zeros;
use crate::error::Fault;
use crate::fs::erofs;
use crate::fs::erofs::codec::Algo;
use crate::fs::erofs::dir::RawView;
use crate::fs::erofs::SuperView;
use crate::fs::ext4;
use crate::text::trim_keeps;
use vstd::arithmetic::power2::pow2;
use vstd::prelude::*;

verus! {

// ---------------------------------------------------------------------
// Trees as they are read from EROFS images
// ---------------------------------------------------------------------
/// A node as it comes from an image: it knows its number, and what is no
/// directory has its content in the image.
pub open spec fn is_read(n: NodeView) -> bool {
    n.original_nid == n.nid && (!n.is_dir() ==> n.payload is Empty)
}

/// All nodes of a tree are as they come from an image.
pub open spec fn as_read() -> spec_fn(NodeView) -> bool {
    |n: NodeView| is_read(n)
}

proof fn trees_are_as_read(
    sb: erofs::Superblock,
    d: Seq<u8>,
    nid: u64,
    name: Seq<char>,
    depth: int,
)
    requires
        0 <= depth,
    ensures
        tree_of(sb, d, nid, name, depth) matches Ok(r) ==> throughout(r, as_read()),
    decreases MAX_DEPTH + 2 - depth, 0int, 0int,
{
    if depth <= MAX_DEPTH {
        if let Ok(fi) = crate::fs::erofs::inode::inode_of(sb, d, nid) {
            if fi.size > 0 && fi.mode & 0xf000 == 0x4000 {
                if let Ok(data) = crate::fs::erofs::inode::data_of(sb, d, fi) {
                    if let Ok(entries) = crate::fs::erofs::dir::parsed(
                        data,
                        sb.block_size as int,
                    ) {
                        kids_are_as_read(sb, d, entries, depth + 1);
                    }
                }
            }
        }
    }
}

proof fn kids_are_as_read(sb: erofs::Superblock, d: Seq<u8>, entries: Seq<RawView>, depth: int)
    requires
        0 <= depth <= MAX_DEPTH + 1,
    ensures
        kids_of(sb, d, entries, depth) matches Ok(s) ==> forall|i: int|
            0 <= i < s.len() ==> throughout(#[trigger] s[i], as_read()),
    decreases MAX_DEPTH + 2 - depth, 1int, entries.len(),
{
    if entries.len() > 0 {
        kids_are_as_read(sb, d, entries.drop_last(), depth);
        let e = entries.last();
        trees_are_as_read(sb, d, e.nid, e.name, depth);
    }
}

proof fn targets_are_loaded(sb: erofs::Superblock, d: Seq<u8>, s: Seq<NodeView>)
    requires
        all_with_targets(sb, d, s) is Ok,
    ensures
        ({
            let t = all_with_targets(sb, d, s)->Ok_0;
            &&& t.len() == s.len()
            &&& forall|i: int|
                0 <= i < s.len() ==> with_targets(sb, d, #[trigger] s[i]) == Ok::<NodeView, Fault>(
                    t[i],
                )
        }),
    decreases s.len(),
{
    if s.len() > 0 {
        let front = s.subrange(0, s.len() - 1);
        targets_are_loaded(sb, d, front);
        let t = all_with_targets(sb, d, s)->Ok_0;
        assert forall|i: int| 0 <= i < s.len() implies with_targets(sb, d, #[trigger] s[i]) == Ok::<
            NodeView,
            Fault,
        >(t[i]) by {
            if i < s.len() - 1 {
                assert(front[i] == s[i]);
            }
        }
    }
}

// ---------------------------------------------------------------------
// What survives
// ---------------------------------------------------------------------
/// The label of a node, if it has one, fits into an inode of the given size.
pub open spec fn has_fitting_label(inode_size: int) -> spec_fn(NodeView) -> bool {
    |n: NodeView|
        n.context matches Some(c) ==> !c.contains('\0') && label_fits(c, inode_size) is Ok
}

/// The target of a symbolic link does not look like a map of extents.
pub open spec fn has_plain_target(v: Volume, block_size: int) -> spec_fn(NodeView) -> bool {
    |n: NodeView|
        n.mode & 0xf000 == 0xa000 ==> (source_content(v, n, block_size) matches Ok(c) ==> !(c.len()
            >= 2 && c[0] == 0x0a && c[1] == 0xf3))
}

/// The tree `r` of the image `w` is the tree `n` of the image `v`: the same
/// names, modes, owners, labels and content.
pub open spec fn survived(w: Volume, v: Volume, r: NodeView, n: NodeView) -> bool
    decreases n,
{
    &&& r.mode == n.mode
    &&& r.uid == n.uid
    &&& r.gid == n.gid
    &&& r.context == n.context
    &&& !n.is_dir() ==> r.data_size == n.data_size && serves_the_same(v, n, w, r)
    &&& r.children.len() == n.children.len()
    &&& forall|i: int|
        0 <= i < n.children.len() ==> r.children[i].name == (#[trigger] n.children[i]).name
            && survived(w, v, r.children[i], n.children[i])
}

/// A tree that was read from an EROFS image can be kept by an ext4 image.
proof fn read_trees_are_readable(
    sb: erofs::Superblock,
    d: Seq<u8>,
    v: Volume,
    r: NodeView,
    t: NodeView,
    n: NodeView,
    depth: int,
)
    requires
        readable(n, depth),
        regained(sb, d, v, r, n),
        throughout(r, as_read()),
        throughout(n, has_plain_target(v, sb.block_size as int)),
        with_targets(sb, d, r) == Ok::<NodeView, Fault>(t),
    ensures
        readable_ext4(t, depth),
    decreases n,
{
    assert(as_read()(r));
    assert(has_plain_target(v, sb.block_size as int)(n));
    targets_are_loaded(sb, d, r.children);
    assert(plain_target(t));
    assert forall|i: int| 0 <= i < t.children.len() implies readable_ext4(
        #[trigger] t.children[i],
        depth + 1,
    ) && t.children[i].name != "."@ && t.children[i].name != ".."@ by {
        assert(with_targets(sb, d, r.children[i]) == Ok::<NodeView, Fault>(t.children[i]));
        assert(readable(n.children[i], depth + 1));
        assert(regained(sb, d, v, r.children[i], n.children[i]));
        read_trees_are_readable(
            sb,
            d,
            v,
            r.children[i],
            t.children[i],
            n.children[i],
            depth + 1,
        );
    }
}

/// What the source serves, the EROFS image serves too.
proof fn content_survives(
    sb: erofs::Superblock,
    d: Seq<u8>,
    v: Volume,
    r: NodeView,
    t: NodeView,
    n: NodeView,
)
    requires
        !n.is_dir(),
        sb.block_size > 0,
        regained(sb, d, v, r, n),
        is_read(r),
        with_targets(sb, d, r) == Ok::<NodeView, Fault>(t),
    ensures
        serves_the_same(v, n, Volume::Erofs { sb, d }, t),
        t.data_size == n.data_size,
{
    let w = Volume::Erofs { sb, d };
    assert forall|c: Seq<u8>| #[trigger] serves(v, n, c) implies serves(w, t, c) by {
        sources_give_the_content(v, n, c, sb.block_size as int);
        assert(content_of(sb, d, r.nid) == Ok::<Seq<u8>, Fault>(c));
        assert(serves(w, r, c));
        if r.mode & 0xf000 == 0xa000 {
            memory_is_served(w, t, c);
        } else {
            assert forall|offset: int, len: int|
                0 <= offset && 0 < len && offset + len <= c.len() implies #[trigger] served(
                w,
                t,
                offset,
                len,
            ) == Ok::<Seq<u8>, Fault>(c.subrange(offset, offset + len)) by {
                assert(served(w, r, offset, len) == served(w, t, offset, len));
            }
        }
    }
}

/// Two conversions keep a tree.
proof fn conversions_compose(
    sb: erofs::Superblock,
    d: Seq<u8>,
    v: Volume,
    w: Volume,
    inode_size: int,
    n: NodeView,
    r: NodeView,
    t: NodeView,
    x: NodeView,
)
    requires
        sb.block_size > 0,
        regained(sb, d, v, r, n),
        throughout(r, as_read()),
        throughout(n, has_fitting_label(inode_size)),
        with_targets(sb, d, r) == Ok::<NodeView, Fault>(t),
        regained_ext4(w, Volume::Erofs { sb, d }, inode_size, x, t),
    ensures
        survived(w, v, x, n),
    decreases n,
{
    assert(as_read()(r));
    assert(has_fitting_label(inode_size)(n));
    targets_are_loaded(sb, d, r.children);
    if let Some(c) = n.context {
        trim_keeps(c);
        assert(label_of(n) == Some(c));
    }
    if !n.is_dir() {
        content_survives(sb, d, v, r, t, n);
    }
    assert forall|i: int| 0 <= i < n.children.len() implies x.children[i].name == (
    #[trigger] n.children[i]).name && survived(w, v, x.children[i], n.children[i]) by {
        assert(regained(sb, d, v, r.children[i], n.children[i]));
        assert(with_targets(sb, d, r.children[i]) == Ok::<NodeView, Fault>(t.children[i]));
        assert(x.children[i].name == t.children[i].name);
        assert(regained_ext4(
            w,
            Volume::Erofs { sb, d },
            inode_size,
            x.children[i],
            t.children[i],
        ));
        conversions_compose(
            sb,
            d,
            v,
            w,
            inode_size,
            n.children[i],
            r.children[i],
            t.children[i],
            x.children[i],
        );
    }
}

// ---------------------------------------------------------------------
// The laws
// ---------------------------------------------------------------------
/// The ext4 image of an EROFS image holds the tree of the EROFS image, whether
/// equal blocks are shared or not.
pub proof fn conversions_to_ext4_read_back(
    sb: erofs::Superblock,
    d: Seq<u8>,
    tree: NodeView,
    shared: bool,
    reserve_mb: u64,
    bits: nat,
    name: Seq<char>,
)
    requires
        10 <= bits <= 15,
        sb.block_size == pow2(bits),
        tree_of(sb, d, sb.root_nid, ""@, 0) matches Ok(root) && with_targets(sb, d, root) == Ok::<
            NodeView,
            Fault,
        >(tree),
        readable_ext4(tree, 0),
        erofs_as_ext4(sb, d, shared, reserve_mb) is Ok,
    ensures
        ({
            let e = erofs_as_ext4(sb, d, shared, reserve_mb)->Ok_0;
            &&& ext4::superblock(e) matches Ok(p) && {
                &&& p.block_size == sb.block_size
                &&& ext4_tree(p, e, ROOT_INODE as u32, name, 0) matches Ok(r) && r.name == name
                    && regained_ext4(
                    Volume::Ext4 { sb: p, d: e },
                    Volume::Erofs { sb, d },
                    CONVERTED_INODE_SIZE as int,
                    r,
                    tree,
                )
            }
        }),
{
    ext4_rebuilds_read_back(
        Volume::Erofs { sb, d },
        tree,
        ext4_profile(sb.block_size, shared),
        shared,
        reserve_mb,
        false,
        false,
        bits,
        name,
    );
}

/// An EROFS image of an ext4 image.
pub open spec fn is_erofs_of(
    p: ext4::Superblock,
    d: Seq<u8>,
    root: NodeView,
    algo: Algo,
    build_time: u64,
    e: Seq<u8>,
) -> bool {
    &&& ext4_tree(p, d, 2, ""@, 0) == Ok::<NodeView, Fault>(root)
    &&& ext4_as_erofs(p, d, algo, build_time) == Ok::<Seq<u8>, Fault>(e)
}

/// Whether the EROFS image of an ext4 image has compressed files.
pub open spec fn compresses(algo: Algo, block_size: int) -> bool {
    algo != Algo::Off && indexable(block_size)
}

/// What of an ext4 tree the EROFS image of it can keep.
pub open spec fn convertible(
    v: Volume,
    root: NodeView,
    block_size: int,
    algo: Algo,
) -> bool {
    let n = prepared(exported(root), block_size, compresses(algo, block_size));
    &&& root.is_dir()
    &&& readable(n, 0)
    &&& contexts_fit(n, block_size, 1)
    &&& throughout(n, has_fitting_label(CONVERTED_INODE_SIZE as int))
    &&& throughout(n, has_plain_target(v, block_size))
    &&& algo != Algo::Off ==> packs_faithfully(v, exported(root), block_size, 1, algo)
}

/// The EROFS image of an ext4 image reads back: it has a superblock, and the
/// tree that it leads to is that of the ext4 image, without special files and
/// without `/lost+found`.
pub proof fn conversions_to_erofs_read_back(
    p: ext4::Superblock,
    d: Seq<u8>,
    root: NodeView,
    algo: Algo,
    build_time: u64,
    e: Seq<u8>,
    sb: erofs::Superblock,
    bits: nat,
)
    requires
        10 <= bits <= 15,
        p.block_size == pow2(bits),
        is_erofs_of(p, d, root, algo, build_time, e),
        convertible(Volume::Ext4 { sb: p, d }, root, p.block_size as int, algo),
    ensures
        erofs::superblock(e) is Ok,
        erofs::superblock(e) == Ok::<SuperView, Fault>(sb@) ==> {
            &&& sb.block_size == p.block_size
            &&& tree_of(sb, e, sb.root_nid, ""@, 0) matches Ok(r) && regained(
                sb,
                e,
                Volume::Ext4 { sb: p, d },
                r,
                prepared(exported(root), p.block_size as int, compresses(algo, p.block_size as int)),
            )
        },
{
    let v = Volume::Ext4 { sb: p, d };
    powers(bits);
    assert(exported(root).is_dir());
    if algo == Algo::Off {
        plain_conversions_read_back(v, exported(root), bits, build_time, sb, ""@);
    } else {
        packed_images_read_back(
            v,
            exported(root),
            bits,
            1,
            algo,
            0,
            build_time,
            zeros(16),
            0,
            sb,
            ""@,
        );
    }
}

proof fn powers(bits: nat)
    requires
        10 <= bits <= 15,
    ensures
        1024 <= pow2(bits) <= 32768,
{
    vstd::arithmetic::power2::lemma2_to64();
}

/// An ext4 image that is converted to EROFS and back keeps its files (but for
/// special ones and `/lost+found`, which EROFS images leave out): names, modes, owners and
/// content, and every label, character for character.
pub proof fn round_trips_keep_the_tree(
    p: ext4::Superblock,
    d: Seq<u8>,
    root: NodeView,
    algo: Algo,
    build_time: u64,
    e: Seq<u8>,
    sb: erofs::Superblock,
    shared: bool,
    reserve_mb: u64,
    bits: nat,
    name: Seq<char>,
)
    requires
        10 <= bits <= 15,
        p.block_size == pow2(bits),
        is_erofs_of(p, d, root, algo, build_time, e),
        convertible(Volume::Ext4 { sb: p, d }, root, p.block_size as int, algo),
        erofs::superblock(e) == Ok::<SuperView, Fault>(sb@),
        erofs_as_ext4(sb, e, shared, reserve_mb) is Ok,
    ensures
        ({
            let f = erofs_as_ext4(sb, e, shared, reserve_mb)->Ok_0;
            &&& ext4::superblock(f) matches Ok(q) && {
                &&& q.block_size == p.block_size
                &&& ext4_tree(q, f, ROOT_INODE as u32, name, 0) matches Ok(x) && survived(
                    Volume::Ext4 { sb: q, d: f },
                    Volume::Ext4 { sb: p, d },
                    x,
                    prepared(exported(root), p.block_size as int, compresses(algo, p.block_size as int)),
                )
            }
        }),
{
    let v = Volume::Ext4 { sb: p, d };
    let bs = p.block_size as int;
    let n = prepared(exported(root), bs, compresses(algo, bs));
    conversions_to_erofs_read_back(p, d, root, algo, build_time, e, sb, bits);
    powers(bits);
    let r = tree_of(sb, e, sb.root_nid, ""@, 0)->Ok_0;
    trees_are_as_read(sb, e, sb.root_nid, ""@, 0);
    let t = with_targets(sb, e, r)->Ok_0;
    read_trees_are_readable(sb, e, v, r, t, n, 0);
    conversions_to_ext4_read_back(sb, e, t, shared, reserve_mb, bits, name);
    let f = erofs_as_ext4(sb, e, shared, reserve_mb)->Ok_0;
    let q = ext4::superblock(f)->Ok_0;
    let x = ext4_tree(q, f, ROOT_INODE as u32, name, 0)->Ok_0;
    conversions_compose(
        sb,
        e,
        v,
        Volume::Ext4 { sb: q, d: f },
        CONVERTED_INODE_SIZE as int,
        n,
        r,
        t,
        x,
    );
}

} // verus!
