//! Converting images: no changes to files, only to how they are stored.
//!
//! - With the filesystem kept, only the container changes (raw or sparse),
//!   and the filesystem in it stays as it is.
//! - From EROFS to ext4, a fresh ext4 image is made of the EROFS tree.
//! - From ext4 to EROFS, a fresh EROFS image is made of the ext4 tree.
use super::blocks::{ErofsBlockSource, Volume};
use super::ext4_plan::{fresh_ext4, rebuild_generic};
use super::ext4_source::{ext4_tree, Ext4Source};
use super::node::{children_seen, node_views, Node, NodePayload, NodeView, PayloadView};
use super::packed::{convert_compressed, packed_image, packs_faithfully};
use super::rebuild::{convert_plain, plain_conversion, stored};
use super::source::{content_of, tree_of, Source};
use super::store::ByteStore;
use crate::buf::zeros;
use crate::error::{fail, Error, Fault};
use crate::fs::erofs::codec::Algo;
use crate::fs::{erofs, ext4, FsKind};
use crate::image::{ByteSink, ByteSource, Image};
use crate::math::least;
use crate::sparse::{copy_bytes, sparse_container, sparsify, stream_logical};
use crate::text::same;
use vstd::prelude::*;

verus! {

// ---------------------------------------------------------------------
// Containers
// ---------------------------------------------------------------------
/// An image in a raw or a sparse container: the container itself where it
/// is of that kind already.
pub open spec fn contained<S: ByteSource>(image: Image<S>, sparse: bool, block_size: int) -> Result<
    Seq<u8>,
    Fault,
> {
    if (image is Sparse) == sparse {
        Ok(image.container().bytes())
    } else if image is Sparse {
        Ok(image.disk())
    } else {
        sparse_container(image.container().bytes(), block_size)
    }
}

/// Changes only the container of an image.
pub fn convert_container<S: ByteSource, O: ByteSink>(
    image: &Image<S>,
    sparse: bool,
    block_size: usize,
    out: &mut O,
) -> (r: Result<(), Error>)
    requires
        image.wf(),
        block_size >= 4,
    ensures
        final(out).full() == old(out).full(),
        match r {
            Ok(_) => contained(*image, sparse, block_size as int) matches Ok(data) && final(
                out).written() == old(out).written() + data,
            Err(e) => contained(*image, sparse, block_size as int) == Err::<Seq<u8>, Fault>(e@) || (
            e is Io && (image.faulty() || old(out).full())),
        },
{
    if image.is_sparse() == sparse {
        return match image {
            Image::Raw { source, .. } => copy_container(source, out),
            Image::Sparse { source, .. } => copy_container(source, out),
        };
    }
    match image {
        Image::Sparse { .. } => stream_logical(image, out),
        Image::Raw { source, .. } => sparsify(source, block_size, out),
    }
}

fn copy_container<S: ByteSource, O: ByteSink>(source: &S, out: &mut O) -> (r: Result<(), Error>)
    ensures
        final(out).full() == old(out).full(),
        match r {
            Ok(_) => final(out).written() == old(out).written() + source.bytes(),
            Err(e) => e is Io && (source.faulty() || old(out).full()),
        },
{
    let n = source.len();
    let r = copy_bytes(source, 0, n, out);
    proof {
        assert(source.bytes().subrange(0, n as int) =~= source.bytes());
        assert(n == 0 ==> old(out).written() + source.bytes() =~= old(out).written());
    }
    r
}

/// The block size of the filesystem of an image.
pub open spec fn block_size_of(d: Seq<u8>, kind: FsKind) -> Result<u64, Fault> {
    match kind {
        FsKind::Ext4 => match ext4::superblock(d) {
            Err(e) => Err(e),
            Ok(sb) => Ok(sb.block_size),
        },
        FsKind::Erofs => match erofs::superblock(d) {
            Err(e) => Err(e),
            Ok(sb) => Ok(sb.block_size),
        },
    }
}

/// The block size of the filesystem of an image.
pub fn fs_block_size<S: ByteSource>(image: &Image<S>, kind: FsKind) -> (r: Result<u64, Error>)
    requires
        image.wf(),
    ensures
        match r {
            Ok(n) => block_size_of(image.disk(), kind) == Ok::<u64, Fault>(n) && 512 <= n <= 1048576,
            Err(e) => block_size_of(image.disk(), kind) == Err::<u64, Fault>(e@) || (e is Io
                && image.faulty()),
        },
{
    match kind {
        FsKind::Ext4 => {
            let sb = ext4::Superblock::read(image)?;
            Ok(sb.block_size)
        },
        FsKind::Erofs => {
            let sb = erofs::Superblock::read(image)?;
            proof {
                let bits = choose|bits: nat|
                    9 <= bits <= 20 && sb.block_size
                        == #[trigger] vstd::arithmetic::power2::pow2(bits);
                erofs::block_size_bounds(bits);
            }
            Ok(sb.block_size)
        },
    }
}

// ---------------------------------------------------------------------
// EROFS to ext4
// ---------------------------------------------------------------------
/// The tree with the targets of symbolic links loaded.
pub open spec fn with_targets(sb: erofs::Superblock, d: Seq<u8>, n: NodeView) -> Result<
    NodeView,
    Fault,
>
    decreases n,
{
    match if n.mode & 0xf000 == 0xa000 && n.payload is Empty {
        match content_of(sb, d, n.original_nid) {
            Err(e) => Err(e),
            Ok(data) => Ok(PayloadView::Memory(data)),
        }
    } else {
        Ok(n.payload)
    } {
        Err(e) => Err(e),
        Ok(payload) => match all_with_targets(sb, d, n.children) {
            Err(e) => Err(e),
            Ok(children) => Ok(NodeView { payload, children, ..n }),
        },
    }
}

/// The trees with the targets of symbolic links loaded.
pub open spec fn all_with_targets(sb: erofs::Superblock, d: Seq<u8>, s: Seq<NodeView>) -> Result<
    Seq<NodeView>,
    Fault,
>
    decreases s,
{
    if s.len() == 0 {
        Ok(Seq::empty())
    } else {
        match all_with_targets(sb, d, s.subrange(0, s.len() - 1)) {
            Err(e) => Err(e),
            Ok(t) => match with_targets(sb, d, s[s.len() - 1]) {
                Err(e) => Err(e),
                Ok(n) => Ok(t.push(n)),
            },
        }
    }
}

proof fn targets_fail_early(sb: erofs::Superblock, d: Seq<u8>, s: Seq<NodeView>, i: int)
    requires
        0 <= i <= s.len(),
        all_with_targets(sb, d, s.take(i)) is Err,
    ensures
        all_with_targets(sb, d, s) == all_with_targets(sb, d, s.take(i)),
    decreases s.len(),
{
    if i == s.len() {
        assert(s.take(i) =~= s);
    } else {
        let front = s.subrange(0, s.len() - 1);
        assert(front.take(i) =~= s.take(i));
        targets_fail_early(sb, d, front, i);
    }
}

/// Loads the targets of symbolic links.
pub fn preload_symlinks<S: ByteSource>(source: &Source<S>, node: &mut Node) -> (r: Result<
    (),
    Error,
>)
    requires
        source.wf(),
    ensures
        match r {
            Ok(_) => with_targets(source.sb, source.reader.disk(), old(node)@) == Ok::<
                NodeView,
                Fault,
            >(final(node)@),
            Err(e) => with_targets(source.sb, source.reader.disk(), old(node)@) == Err::<
                NodeView,
                Fault,
            >(e@) || (e is Io && source.reader.faulty()),
        },
    decreases *old(node),
{
    let ghost sb = source.sb;
    let ghost d = source.reader.disk();
    let ghost first = node.children@;
    let ghost views = node_views(first);
    let unloaded = match &node.payload {
        NodePayload::Empty => true,
        _ => false,
    };
    if node.mode & 0xf000 == 0xa000 && unloaded {
        let data = source.data(node.original_nid)?;
        node.payload = NodePayload::Memory(data);
    }
    let ghost payload = node.payload;
    let n = node.children.len();
    let mut i: usize = 0;
    proof {
        children_seen(*old(node));
        assert(views.take(0) =~= Seq::empty());
        assert(node_views(node.children@.take(0)) =~= Seq::empty());
    }
    while i < n
        invariant
            source.wf(),
            sb == source.sb,
            d == source.reader.disk(),
            i <= n == first.len(),
            node.children@.len() == n,
            views == node_views(first),
            views.len() == n,
            old(node).children@ == first,
            forall|k: int| i <= k < n ==> node.children@[k] == first[k],
            all_with_targets(sb, d, views.take(i as int)) == Ok::<Seq<NodeView>, Fault>(
                node_views(node.children@.take(i as int)),
            ),
            *node == (Node { payload, children: node.children, ..*old(node) }),
            (match with_targets(sb, d, old(node)@) {
                Ok(_) => true,
                Err(e) => all_with_targets(sb, d, views) == Err::<Seq<NodeView>, Fault>(e),
            }),
            all_with_targets(sb, d, views) is Err ==> with_targets(sb, d, old(node)@) is Err,
        decreases n - i,
    {
        proof {
            let t = views.take(i + 1);
            assert(t.subrange(0, t.len() - 1) =~= views.take(i as int));
            assert(t[t.len() - 1] == first[i as int]@);
        }
        let ghost before = node.children@;
        match preload_symlinks(source, &mut node.children[i]) {
            Ok(_) => {},
            Err(e) => {
                proof {
                    if all_with_targets(sb, d, views.take(i + 1)) is Err {
                        targets_fail_early(sb, d, views, i + 1);
                    }
                }
                return Err(e);
            },
        }
        proof {
            assert(node.children@ =~= before.update(i as int, node.children@[i as int]));
            assert(node_views(node.children@.take(i + 1)) =~= node_views(
                before.take(i as int),
            ).push(node.children@[i as int]@));
        }
        i += 1;
    }
    proof {
        assert(views.take(i as int) =~= views);
        assert(node.children@.take(i as int) =~= node.children@);
    }
    Ok(())
}

/// The size of the inodes of an image that is made from an EROFS image.
pub const CONVERTED_INODE_SIZE: u16 = 256;

/// What a fresh ext4 image takes over from an EROFS image.
pub open spec fn ext4_profile(block_size: u64, shared: bool) -> ext4::Superblock {
    ext4::Superblock {
        block_size,
        inode_size: CONVERTED_INODE_SIZE,
        blocks_per_group: 32768,
        inodes_per_group: 1024,
        group_descriptor_size: 32,
        block_count: 0,
        compat: 0,
        incompat: 0x42,
        ro_compat: if shared {
            0x4000
        } else {
            0
        },
    }
}

/// The ext4 image of an EROFS image.
pub open spec fn erofs_as_ext4(
    sb: erofs::Superblock,
    d: Seq<u8>,
    shared: bool,
    reserve_mb: u64,
) -> Result<Seq<u8>, Fault> {
    match tree_of(sb, d, sb.root_nid, ""@, 0) {
        Err(e) => Err(e),
        Ok(root) => match with_targets(sb, d, root) {
            Err(e) => Err(e),
            Ok(tree) => fresh_ext4(
                Volume::Erofs { sb, d },
                tree,
                ext4_profile(sb.block_size, shared),
                shared,
                reserve_mb,
                false,
                false,
            ),
        },
    }
}

/// Writes an EROFS image as a fresh ext4 image.
pub fn erofs_to_ext4<S: ByteSource, T: ByteStore>(
    source: &Source<S>,
    shared: bool,
    reserve_mb: u64,
    store: &mut T,
) -> (r: Result<(), Error>)
    requires
        source.wf(),
    ensures
        final(store).failing() == old(store).failing(),
        stored(
            source.reader.faulty() || old(store).failing(),
            r,
            final(store).content(),
            erofs_as_ext4(source.sb, source.reader.disk(), shared, reserve_mb),
        ),
{
    let mut root = source.tree(source.sb.root_nid, "".to_owned())?;
    preload_symlinks(source, &mut root)?;
    let profile = ext4::Superblock {
        block_size: source.sb.block_size,
        inode_size: CONVERTED_INODE_SIZE,
        blocks_per_group: 32768,
        inodes_per_group: 1024,
        group_descriptor_size: 32,
        block_count: 0,
        compat: 0,
        incompat: 0x42,
        ro_compat: if shared {
            0x4000
        } else {
            0
        },
    };
    let mut blocks = ErofsBlockSource::new(source);
    rebuild_generic(&mut blocks, &profile, &mut root, shared, reserve_mb, false, false, store)
}

// ---------------------------------------------------------------------
// ext4 to EROFS
// ---------------------------------------------------------------------
/// Whether a node is a file, a directory or a symbolic link.
pub open spec fn is_ordinary(n: NodeView) -> bool {
    let kind = n.mode & 0xf000;
    kind == 0x8000 || kind == 0x4000 || kind == 0xa000 || kind == 0
}

/// The tree without special files.
pub open spec fn pruned(n: NodeView) -> NodeView
    decreases n,
{
    NodeView { children: all_pruned(n.children), ..n }
}

/// The trees without special files.
pub open spec fn all_pruned(s: Seq<NodeView>) -> Seq<NodeView>
    decreases s,
{
    if s.len() == 0 {
        Seq::empty()
    } else {
        let last = s[s.len() - 1];
        let before = all_pruned(s.subrange(0, s.len() - 1));
        if is_ordinary(last) {
            before.push(pruned(last))
        } else {
            before
        }
    }
}

/// The number of special files that are left out, without those below them.
pub open spec fn specials(n: NodeView) -> int
    decreases n,
{
    all_specials(n.children)
}

/// The number of special files that are left out of trees.
pub open spec fn all_specials(s: Seq<NodeView>) -> int
    decreases s,
{
    if s.len() == 0 {
        0
    } else {
        let last = s[s.len() - 1];
        all_specials(s.subrange(0, s.len() - 1)) + if is_ordinary(last) {
            specials(last)
        } else {
            1
        }
    }
}

proof fn specials_count(n: NodeView)
    ensures
        specials(n) >= 0,
    decreases n,
{
    all_specials_count(n.children);
}

proof fn all_specials_count(s: Seq<NodeView>)
    ensures
        all_specials(s) >= 0,
    decreases s,
{
    if s.len() > 0 {
        all_specials_count(s.subrange(0, s.len() - 1));
        specials_count(s[s.len() - 1]);
    }
}

fn check_ordinary(node: &Node) -> (b: bool)
    ensures
        b == is_ordinary(node@),
{
    let kind = node.mode & 0xf000;
    kind == 0x8000 || kind == 0x4000 || kind == 0xa000 || kind == 0
}

/// Takes special files (sockets, devices, pipes) out of the tree, and counts
/// them.
pub fn prune_specials(node: &mut Node) -> (dropped: u64)
    ensures
        final(node)@ == pruned(old(node)@),
        dropped == least(specials(old(node)@), u64::MAX as int),
    decreases *old(node),
{
    let ghost first = node.children@;
    let ghost views = node_views(first);
    let ghost n = first.len() as int;
    let ghost mut j: int = 0;
    let mut dropped: u64 = 0;
    let mut i: usize = 0;
    proof {
        children_seen(*old(node));
        assert(views.take(0) =~= Seq::empty());
        assert(node_views(node.children@.take(0)) =~= Seq::empty());
    }
    while i < node.children.len()
        invariant
            0 <= i <= j <= n,
            n == first.len(),
            views == node_views(first),
            views.len() == n,
            old(node).children@ == first,
            node.children@.len() == i + (n - j),
            forall|k: int| i <= k < node.children@.len() ==> node.children@[k] == first[k - i + j],
            node_views(node.children@.take(i as int)) == all_pruned(views.take(j)),
            dropped == least(all_specials(views.take(j)), u64::MAX as int),
            *node == (Node { children: node.children, ..*old(node) }),
        decreases n - j,
    {
        proof {
            let t = views.take(j + 1);
            assert(t.subrange(0, t.len() - 1) =~= views.take(j));
            assert(t[t.len() - 1] == first[j]@);
            assert(node.children@[i as int] == first[j]);
            specials_count(first[j]@);
            all_specials_count(views.take(j));
        }
        let ghost before = node.children@;
        if check_ordinary(&node.children[i]) {
            let more = prune_specials(&mut node.children[i]);
            dropped = dropped.saturating_add(more);
            proof {
                assert(node.children@ =~= before.update(i as int, node.children@[i as int]));
                assert(node_views(node.children@.take(i + 1)) =~= node_views(
                    before.take(i as int),
                ).push(node.children@[i as int]@));
            }
            i += 1;
        } else {
            let _special = node.children.remove(i);
            dropped = dropped.saturating_add(1);
            assert(node.children@.take(i as int) =~= before.take(i as int));
        }
        proof {
            j = j + 1;
        }
    }
    proof {
        assert(views.take(j) =~= views);
        assert(node.children@.take(i as int) =~= node.children@);
    }
    dropped
}

/// Whether a node is the directory that an ext4 image keeps for recovered
/// files.
pub open spec fn is_lost_found(n: NodeView) -> bool {
    n.is_dir() && n.name == "lost+found"@
}

/// The nodes without the directory for recovered files.
pub open spec fn without_lost_found(s: Seq<NodeView>) -> Seq<NodeView>
    decreases s.len(),
{
    if s.len() == 0 {
        Seq::empty()
    } else if is_lost_found(s.last()) {
        without_lost_found(s.drop_last())
    } else {
        without_lost_found(s.drop_last()).push(s.last())
    }
}

/// What of an ext4 tree an EROFS image keeps: everything but special files
/// and the directory `/lost+found`, which only ext4 has a use for.
pub open spec fn exported(root: NodeView) -> NodeView {
    pruned(NodeView { children: without_lost_found(root.children), ..root })
}

/// Takes the directory `lost+found` out of a directory.
pub fn drop_lost_found(node: &mut Node)
    ensures
        final(node)@ == (NodeView {
            children: without_lost_found(old(node)@.children),
            ..old(node)@
        }),
{
    let ghost first = node.children@;
    let ghost views = node_views(first);
    let ghost n = first.len() as int;
    let ghost mut j: int = 0;
    let mut i: usize = 0;
    proof {
        children_seen(*old(node));
        assert(views.take(0) =~= Seq::empty());
        assert(node_views(node.children@.take(0)) =~= Seq::empty());
    }
    while i < node.children.len()
        invariant
            0 <= i <= j <= n,
            n == first.len(),
            views == node_views(first),
            views.len() == n,
            old(node).children@ == first,
            node.children@.len() == i + (n - j),
            forall|k: int| i <= k < node.children@.len() ==> node.children@[k] == first[k - i + j],
            node_views(node.children@.take(i as int)) == without_lost_found(views.take(j)),
            *node == (Node { children: node.children, ..*old(node) }),
        decreases n - j,
    {
        proof {
            let t = views.take(j + 1);
            assert(t.drop_last() =~= views.take(j));
            assert(t.last() == first[j]@);
            assert(node.children@[i as int] == first[j]);
        }
        let ghost before = node.children@;
        if node.children[i].is_dir() && same(node.children[i].name.as_str(), "lost+found") {
            let _lost = node.children.remove(i);
            assert(node.children@.take(i as int) =~= before.take(i as int));
        } else {
            assert(node_views(before.take(i + 1)) =~= node_views(before.take(i as int)).push(
                before[i as int]@,
            ));
            i += 1;
        }
        proof {
            j = j + 1;
        }
    }
    proof {
        assert(views.take(j) =~= views);
        assert(node.children@.take(i as int) =~= node.children@);
    }
}

/// The EROFS image of an ext4 image: that of the tree without special files
/// and without `/lost+found`.
pub open spec fn ext4_as_erofs(p: ext4::Superblock, d: Seq<u8>, algo: Algo, build_time: u64) -> Result<
    Seq<u8>,
    Fault,
> {
    match ext4_tree(p, d, 2, ""@, 0) {
        Err(e) => Err(e),
        Ok(root) => if p.block_size > 65536 {
            fail("unsupported block size for EROFS conversion"@)
        } else if algo == Algo::Off {
            plain_conversion(
                Volume::Ext4 { sb: p, d },
                exported(root),
                p.block_size as int,
                build_time,
            )
        } else {
            packed_image(
                Volume::Ext4 { sb: p, d },
                exported(root),
                p.block_size as int,
                1,
                algo,
                0,
                build_time,
                zeros(16),
                0,
            )
        },
    }
}

/// The special files that an EROFS image of an ext4 image leaves out, without
/// those in `/lost+found`.
pub open spec fn left_out(p: ext4::Superblock, d: Seq<u8>) -> int {
    match ext4_tree(p, d, 2, ""@, 0) {
        Err(_) => 0,
        Ok(root) => least(all_specials(without_lost_found(root.children)), u64::MAX as int),
    }
}

/// Writes an ext4 image as a fresh EROFS image. The result is the number of
/// special files that were left out; `/lost+found` is dropped without a word.
pub fn ext4_to_erofs<S: ByteSource, T: ByteStore>(
    source: &mut Ext4Source<S>,
    algo: Algo,
    build_time: u64,
    store: &mut T,
) -> (r: Result<u64, Error>)
    requires
        old(source).wf(),
    ensures
        final(store).failing() == old(store).failing(),
        match r {
            Ok(n) => {
                &&& ext4_as_erofs(
                    old(source).profile,
                    old(source).reader.disk(),
                    algo,
                    build_time,
                ) == Ok::<Seq<u8>, Fault>(final(store).content())
                &&& n == left_out(old(source).profile, old(source).reader.disk())
            },
            Err(e) => ext4_as_erofs(
                old(source).profile,
                old(source).reader.disk(),
                algo,
                build_time,
            ) == Err::<Seq<u8>, Fault>(e@) || (e is Io && (old(source).reader.faulty() || old(
                store,
            ).failing())),
        },
        r is Ok && algo != Algo::Off ==> packs_faithfully(
            (Volume::Ext4 { sb: old(source).profile, d: old(source).reader.disk() }),
            exported(ext4_tree(old(source).profile, old(source).reader.disk(), 2, ""@, 0)->Ok_0),
            old(source).profile.block_size as int,
            1,
            algo,
        ),
{
    let mut root = source.tree(2, "".to_owned())?;
    let block_size = source.profile.block_size;
    if block_size > 65536 {
        return Err(Error::invalid("unsupported block size for EROFS conversion"));
    }
    drop_lost_found(&mut root);
    let dropped = prune_specials(&mut root);
    if algo == Algo::Off {
        convert_plain(source, &mut root, block_size, build_time, store)?;
    } else {
        convert_compressed(source, &mut root, block_size, algo, build_time, store)?;
    }
    Ok(dropped)
}

} // verus!
