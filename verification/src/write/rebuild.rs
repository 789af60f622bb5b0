//! Writing fresh EROFS images.
use super::blocks::{served, BlockSource, Volume};
use super::fresh::{
    file_room, fresh_plan, fresh_writes, is_plain_file, log2, log_two, node_size, number_tree,
    plan_fresh, push_fresh_writes, raw_block_of, rooms_grow, Fresh, FreshPlan,
};
use super::layout::countable;
use super::node::{node_views, sort_tree, sorted_tree, Node, NodeView};
use super::patch::{patch_views, push_patch, word16, word32, Patch, PatchView};
use super::store::{laid, laid_all, laid_next, put_all, resized, ByteStore};
use crate::buf::{bytes16, bytes32, bytes64, push64, push_bytes, zeros};
use crate::error::{Error, Fault};
use crate::fs::erofs::{Superblock, MAGIC};
use crate::image::{ByteSource, Image};
use crate::math::{ceil_div, ceil_div_covers, div_up, greatest, least};
use vstd::prelude::*;

verus! {

/// The bytes that are moved at a time.
pub const QUANTUM: usize = 65536;

// ---------------------------------------------------------------------
// Marks
// ---------------------------------------------------------------------
/// The tree with the files marked that are stored compressed: all that have
/// content, or none.
pub open spec fn marked(n: NodeView, block_size: int, on: bool) -> NodeView
    decreases n,
{
    NodeView {
        erofs_compact_clusters: if on && n.is_regular() && n.data_size > 0 {
            ceil_div(n.data_size as int, block_size) as u64
        } else {
            0
        },
        children: all_marked(n.children, block_size, on),
        ..n
    }
}

/// The trees with the files marked that are stored compressed.
pub open spec fn all_marked(s: Seq<NodeView>, block_size: int, on: bool) -> Seq<NodeView>
    decreases s,
{
    Seq::new(
        s.len(),
        |i: int|
            if 0 <= i < s.len() {
                marked(s[i], block_size, on)
            } else {
                arbitrary()
            },
    )
}

/// Slots are counted for every marked tree.
pub proof fn marked_is_countable(n: NodeView, block_size: int, on: bool)
    requires
        block_size >= 512,
    ensures
        countable(marked(n, block_size, on)),
    decreases n,
{
    let m = marked(n, block_size, on);
    ceil_div_covers(n.data_size as int, block_size);
    let q = ceil_div(n.data_size as int, block_size);
    assert(q <= 0x80_0000_0000_0000) by {
        assert(q * block_size < n.data_size + block_size);
        assert(q <= 0x80_0000_0000_0000) by (nonlinear_arith)
            requires
                q * block_size < n.data_size + block_size,
                n.data_size <= 0xffff_ffff_ffff_ffff,
                block_size >= 512,
        ;
    }
    assert forall|i: int| 0 <= i < m.children.len() implies countable(#[trigger] m.children[i]) by {
        marked_is_countable(n.children[i], block_size, on);
    }
}

/// Marks the files that are stored compressed: all that have content, or
/// none.
pub fn mark_compressed(node: &mut Node, block_size: u64, on: bool)
    requires
        block_size > 0,
    ensures
        final(node)@ == marked(old(node)@, block_size as int, on),
    decreases *old(node),
{
    proof {
        ceil_div_covers(node.data_size as int, block_size as int);
    }
    let clusters = if on && node.is_regular() && node.data_size > 0 {
        div_up(node.data_size, block_size)
    } else {
        0
    };
    node.erofs_compact_clusters = clusters;
    let n = node.children.len();
    let mut i: usize = 0;
    let ghost first = node.children@;
    while i < n
        invariant
            i <= n == first.len() == node.children@.len(),
            first == old(node).children@,
            block_size > 0,
            forall|k: int| i <= k < n ==> node.children@[k] == first[k],
            forall|k: int|
                0 <= k < i ==> (#[trigger] node.children@[k])@ == marked(
                    first[k]@,
                    block_size as int,
                    on,
                ),
            *node == (Node {
                erofs_compact_clusters: clusters,
                children: node.children,
                ..*old(node)
            }),
        decreases n - i,
    {
        mark_compressed(&mut node.children[i], block_size, on);
        i += 1;
    }
    proof {
        assert(node_views(node.children@) =~= all_marked(
            node_views(first),
            block_size as int,
            on,
        ));
    }
}

/// The tree as it is numbered: by name, with marks.
pub open spec fn prepared(root: NodeView, block_size: int, on: bool) -> NodeView {
    marked(sorted_tree(root), block_size, on)
}

// ---------------------------------------------------------------------
// Content
// ---------------------------------------------------------------------
/// The content of a node from `offset` up to `size`, moved piece by piece.
pub open spec fn moved(v: Volume, n: NodeView, offset: int, size: int) -> Result<Seq<u8>, Fault>
    decreases greatest(size - offset, 0),
{
    if offset >= size {
        Ok(Seq::empty())
    } else {
        let take = least(QUANTUM as int, size - offset);
        match served(v, n, offset, take) {
            Err(e) => Err(e),
            Ok(x) => match moved(v, n, offset + take, size) {
                Err(e) => Err(e),
                Ok(rest) => Ok(x + rest),
            },
        }
    }
}

/// Copies the content of a node from `from` up to `size` to a place.
pub fn copy_content<B: BlockSource, T: ByteStore>(
    source: &mut B,
    node: &Node,
    from: u64,
    size: u64,
    at: u64,
    store: &mut T,
) -> (r: Result<(), Error>)
    requires
        old(source).wf(),
        from <= size,
        at + (size - from) <= u64::MAX,
    ensures
        final(source).wf(),
        final(source).volume() == old(source).volume(),
        final(source).unreliable() == old(source).unreliable(),
        final(store).failing() == old(store).failing(),
        match r {
            Ok(_) => moved(old(source).volume(), node@, from as int, size as int) matches Ok(x) && final(
                store).content() == laid(old(store).content(), at as int, x),
            Err(e) => moved(old(source).volume(), node@, from as int, size as int) == Err::<Seq<u8>, Fault>(
                e@,
            ) || (e is Io && (old(source).unreliable() || old(store).failing())),
        },
{
    let ghost v = source.volume();
    let ghost first = store.content();
    let ghost whole = moved(v, node@, from as int, size as int);
    let ghost mut got: Seq<u8> = Seq::empty();
    let mut done: u64 = from;
    proof {
        if let Ok(rest) = whole {
            assert(got + rest =~= rest);
        }
    }
    while done < size
        invariant
            source.wf(),
            v == source.volume(),
            v == old(source).volume(),
            source.unreliable() == old(source).unreliable(),
            store.failing() == old(store).failing(),
            first == old(store).content(),
            from <= done <= size,
            at + (size - from) <= u64::MAX,
            got.len() == done - from,
            store.content() == laid(first, at as int, got),
            whole == moved(v, node@, from as int, size as int),
            whole == (match moved(v, node@, done as int, size as int) {
                Err(e) => Err(e),
                Ok(rest) => Ok(got + rest),
            }),
        decreases size - done,
    {
        let left = size - done;
        let take: usize = if left < QUANTUM as u64 {
            left as usize
        } else {
            QUANTUM
        };
        let x = match source.read_node_block(node, done, take) {
            Ok(x) => x,
            Err(e) => {
                return Err(e);
            },
        };
        match store.put(at + (done - from), &x) {
            Ok(_) => {},
            Err(e) => {
                return Err(e);
            },
        }
        proof {
            laid_next(first, at as int, got, x@);
            if let Ok(rest) = moved(v, node@, done + take, size as int) {
                assert(got + (x@ + rest) =~= (got + x@) + rest);
            }
            got = got + x@;
        }
        done = done + take as u64;
    }
    proof {
        assert(got + Seq::<u8>::empty() =~= got);
    }
    Ok(())
}

/// The image with the files among the first `k` nodes that are stored as
/// they are.
pub open spec fn with_files(s: Seq<u8>, v: Volume, f: Fresh, k: int) -> Result<Seq<u8>, Fault>
    decreases k,
{
    if k <= 0 {
        Ok(s)
    } else {
        match with_files(s, v, f, k - 1) {
            Err(e) => Err(e),
            Ok(t) => {
                let n = f.list[k - 1];
                if is_plain_file(n) && n.data_size > 0 {
                    match moved(v, n, 0, n.data_size as int) {
                        Err(e) => Err(e),
                        Ok(x) => Ok(laid(t, raw_block_of(f, k - 1) * f.block_size, x)),
                    }
                } else {
                    Ok(t)
                }
            },
        }
    }
}

proof fn files_fail_early(s: Seq<u8>, v: Volume, f: Fresh, i: int, k: int)
    requires
        i <= k,
        with_files(s, v, f, i) is Err,
    ensures
        with_files(s, v, f, k) == with_files(s, v, f, i),
    decreases k,
{
    if i < k {
        if k > 0 {
            files_fail_early(s, v, f, i, k - 1);
        }
    }
}

/// Copies the files that are stored as they are.
pub fn copy_files<B: BlockSource, T: ByteStore>(
    source: &mut B,
    p: &FreshPlan,
    store: &mut T,
) -> (r: Result<(), Error>)
    requires
        old(source).wf(),
        p.wf(),
    ensures
        final(source).wf(),
        final(source).volume() == old(source).volume(),
        final(source).unreliable() == old(source).unreliable(),
        final(store).failing() == old(store).failing(),
        match r {
            Ok(_) => with_files(
                old(store).content(),
                old(source).volume(),
                p@,
                p@.list.len() as int,
            ) == Ok::<Seq<u8>, Fault>(final(store).content()),
            Err(e) => with_files(
                old(store).content(),
                old(source).volume(),
                p@,
                p@.list.len() as int,
            ) == Err::<Seq<u8>, Fault>(e@) || (e is Io && (old(source).unreliable()
                || old(store).failing())),
        },
{
    let ghost f = p@;
    let ghost v = source.volume();
    let ghost first = store.content();
    let bs = p.block_size;
    let mut files: u64 = 0;
    let mut i: usize = 0;
    assert(f.list.take(0) =~= Seq::empty());
    while i < p.list.len()
        invariant
            source.wf(),
            p.wf(),
            f == p@,
            v == source.volume(),
            v == old(source).volume(),
            source.unreliable() == old(source).unreliable(),
            store.failing() == old(store).failing(),
            first == old(store).content(),
            bs == p.block_size,
            i <= p.list@.len() == f.list.len(),
            files == file_room(f.list.take(i as int), bs as int),
            with_files(first, v, f, i as int) == Ok::<Seq<u8>, Fault>(store.content()),
        decreases p.list.len() - i,
    {
        let node = p.list[i];
        proof {
            assert(f.list[i as int] == node@);
            let t = f.list.take(i + 1);
            assert(t.drop_last() =~= f.list.take(i as int));
            assert(t.last() == node@);
            rooms_grow(f.list, bs as int, i as int);
            rooms_grow(f.list, bs as int, i + 1);
            assert(node_size(f.list[i as int], bs as int) <= u32::MAX);
            if !node@.is_dir() {
                ceil_div_covers(node.data_size as int, bs as int);
            }
        }
        if !node.is_dir() && node.erofs_compact_clusters == 0 {
            if node.data_size > 0 {
                let block = p.file_block + files;
                assert(block * bs <= 0xffff_ffff * 65536) by (nonlinear_arith)
                    requires
                        block <= 0xffff_ffff,
                        bs <= 65536,
                ;
                match copy_content(source, node, 0, node.data_size, block * bs, store) {
                    Ok(_) => {},
                    Err(e) => {
                        proof {
                            if with_files(first, v, f, i + 1) is Err {
                                files_fail_early(first, v, f, i + 1, f.list.len() as int);
                            }
                        }
                        return Err(e);
                    },
                }
            }
            files = files + div_up(node.data_size, bs);
        }
        i += 1;
    }
    Ok(())
}

/// Copies the first `n` bytes of an image to the start of a store.
pub fn copy_base<S: ByteSource, T: ByteStore>(image: &Image<S>, n: u64, store: &mut T) -> (r: Result<
    (),
    Error,
>)
    requires
        image.wf(),
        n <= image.disk().len(),
    ensures
        final(store).failing() == old(store).failing(),
        match r {
            Ok(_) => final(store).content() == laid(
                old(store).content(),
                0,
                image.disk().take(n as int),
            ),
            Err(e) => e is Io && (image.faulty() || old(store).failing()),
        },
{
    let ghost d = image.disk();
    let ghost first = store.content();
    let mut done: u64 = 0;
    let _whole = image.size();
    assert(d.take(0) =~= Seq::empty());
    while done < n
        invariant
            image.wf(),
            d == image.disk(),
            d.len() <= u64::MAX,
            n <= d.len(),
            done <= n,
            store.failing() == old(store).failing(),
            first == old(store).content(),
            store.content() == laid(first, 0, d.take(done as int)),
        decreases n - done,
    {
        let left = n - done;
        let take: usize = if left < QUANTUM as u64 {
            left as usize
        } else {
            QUANTUM
        };
        let x = match image.read_at(done, take) {
            Ok(x) => x,
            Err(e) => {
                return Err(e);
            },
        };
        match store.put(done, &x) {
            Ok(_) => {},
            Err(e) => {
                return Err(e);
            },
        }
        proof {
            laid_next(first, 0, d.take(done as int), x@);
            assert(d.take(done as int) + x@ =~= d.take(done + take));
        }
        done = done + take as u64;
    }
    Ok(())
}

// ---------------------------------------------------------------------
// Plain images
// ---------------------------------------------------------------------
/// The fields of the superblock that a rebuild sets.
pub open spec fn super_fields(sb: Superblock, f: Fresh, root_nid: u64) -> Seq<PatchView> {
    seq![
        PatchView { at: 1024, data: bytes32(MAGIC) },
        PatchView { at: 1032, data: bytes32(sb.feature_compat & !1u32) },
        PatchView { at: 1036, data: seq![log2(sb.block_size as int) as u8] },
        PatchView { at: 1038, data: bytes16(root_nid as u16) },
        PatchView { at: 1040, data: bytes64(f.list.len() as u64) },
        PatchView { at: 1048, data: bytes64(sb.build_time) },
        PatchView { at: 1056, data: bytes32(sb.build_nsec) },
        PatchView { at: 1060, data: bytes32(f.end_block as u32) },
        PatchView { at: 1064, data: bytes32(sb.meta_blkaddr as u32) },
        PatchView { at: 1088, data: sb.volume@ },
        PatchView { at: 1104, data: bytes32(sb.feature_incompat) },
        PatchView { at: 1124, data: bytes32(sb.feature_ro_compat) },
    ] + if f.table.len() == 0 {
        Seq::empty()
    } else {
        seq![PatchView { at: 1068, data: bytes32(f.table_block as u32) }]
    }
}

fn word64(v: u64) -> (r: Vec<u8>)
    ensures
        r@ == bytes64(v),
{
    let mut out: Vec<u8> = Vec::new();
    push64(&mut out, v);
    assert(out@ =~= bytes64(v));
    out
}

fn push_super_fields(sb: &Superblock, p: &FreshPlan, root_nid: u64, out: &mut Vec<Patch>)
    requires
        p.wf(),
        sb.block_size <= 65536,
    ensures
        patch_views(final(out)@) == patch_views(old(out)@) + super_fields(*sb, p@, root_nid),
{
    let ghost before = patch_views(out@);
    push_patch(out, 1024, word32(MAGIC));
    push_patch(out, 1032, word32(sb.feature_compat & !1u32));
    let bits: Vec<u8> = vec![log_two(sb.block_size)];
    assert(bits@ =~= seq![log2(sb.block_size as int) as u8]);
    push_patch(out, 1036, bits);
    push_patch(out, 1038, word16(root_nid as u16));
    push_patch(out, 1040, word64(p.list.len() as u64));
    push_patch(out, 1048, word64(sb.build_time));
    push_patch(out, 1056, word32(sb.build_nsec));
    push_patch(out, 1060, word32(p.end_block as u32));
    push_patch(out, 1064, word32(sb.meta_blkaddr as u32));
    let mut volume: Vec<u8> = Vec::new();
    push_bytes(&mut volume, &sb.volume);
    assert(volume@ =~= sb.volume@);
    push_patch(out, 1088, volume);
    push_patch(out, 1104, word32(sb.feature_incompat));
    push_patch(out, 1124, word32(sb.feature_ro_compat));
    if p.table.len() > 0 {
        push_patch(out, 1068, word32(p.table_block as u32));
    }
    assert(patch_views(out@) =~= before + super_fields(*sb, p@, root_nid));
}

/// The image of a rebuild without compression: the old image, cut or filled
/// up to the new size, with the metadata and the files over it.
pub open spec fn plain_image(sb: Superblock, d: Seq<u8>, root: NodeView) -> Result<Seq<u8>, Fault> {
    let bs = sb.block_size as int;
    match fresh_plan(prepared(root, bs, false), bs, sb.meta_blkaddr as int) {
        Err(e) => Err(e),
        Ok((tree, f)) => with_files(
            laid_all(
                resized(d, f.end_block * bs),
                fresh_writes(f) + super_fields(sb, f, tree.nid),
            ),
            Volume::Erofs { sb, d },
            f,
            f.list.len() as int,
        ),
    }
}

proof fn resized_base(s: Seq<u8>, d: Seq<u8>, n: int)
    requires
        0 <= n,
    ensures
        resized(laid(Seq::empty(), 0, d.take(least(d.len() as int, n))), n) == resized(d, n),
{
    let m = least(d.len() as int, n);
    assert(resized(laid(Seq::empty(), 0, d.take(m)), n) =~= resized(d, n));
}

/// Lays the old image out, cut or filled up to a size.
fn lay_base<S: ByteSource, T: ByteStore>(image: &Image<S>, size: u64, store: &mut T) -> (r: Result<
    (),
    Error,
>)
    requires
        image.wf(),
    ensures
        final(store).failing() == old(store).failing(),
        match r {
            Ok(_) => final(store).content() == resized(image.disk(), size as int),
            Err(e) => e is Io && (image.faulty() || old(store).failing()),
        },
{
    let have = image.size();
    let n = if have < size {
        have
    } else {
        size
    };
    store.set_len(0)?;
    assert(store.content() =~= Seq::empty());
    copy_base(image, n, store)?;
    proof {
        resized_base(Seq::empty(), image.disk(), size as int);
    }
    store.set_len(size)
}

/// A write failed, or the image is as it should be.
pub open spec fn stored(
    unreliable: bool,
    r: Result<(), Error>,
    content: Seq<u8>,
    expected: Result<Seq<u8>, Fault>,
) -> bool {
    match r {
        Ok(_) => expected == Ok::<Seq<u8>, Fault>(content),
        Err(e) => expected == Err::<Seq<u8>, Fault>(e@) || (e is Io && unreliable),
    }
}

proof fn small_writes_fit(sb: Superblock, f: Fresh, root_nid: u64)
    ensures
        super::fresh::writes_fit(super_fields(sb, f, root_nid)),
{
}

proof fn writes_fit_joins(a: Seq<PatchView>, b: Seq<PatchView>)
    requires
        super::fresh::writes_fit(a),
        super::fresh::writes_fit(b),
    ensures
        super::fresh::writes_fit(a + b),
{
    assert forall|k: int| 0 <= k < (a + b).len() implies (#[trigger] (a + b)[k]).at + (a
        + b)[k].data.len() <= u64::MAX by {
        if k < a.len() {
            assert((a + b)[k] == a[k]);
        } else {
            assert((a + b)[k] == b[k - a.len()]);
        }
    }
}

/// Makes a list of writes that all end at offsets.
pub fn put_fitting<T: ByteStore>(store: &mut T, patches: &Vec<Patch>) -> (r: Result<(), Error>)
    requires
        super::fresh::writes_fit(patch_views(patches@)),
    ensures
        final(store).failing() == old(store).failing(),
        match r {
            Ok(_) => final(store).content() == laid_all(
                old(store).content(),
                patch_views(patches@),
            ),
            Err(e) => e is Io && old(store).failing(),
        },
{
    let r = put_all(store, patches);
    proof {
        assert forall|k: int| 0 <= k < patches@.len() implies (#[trigger] patches@[k]).offset
            + patches@[k].data@.len() <= u64::MAX by {
            assert(patch_views(patches@)[k] == patches@[k]@);
        }
    }
    r
}

/// Rebuilds an EROFS image without compression.
pub fn rebuild_plain<S: ByteSource, T: ByteStore>(
    source: &super::source::Source<S>,
    root: &mut Node,
    store: &mut T,
) -> (r: Result<(), Error>)
    requires
        source.wf(),
    ensures
        final(store).failing() == old(store).failing(),
        stored(
            source.reader.faulty() || old(store).failing(),
            r,
            final(store).content(),
            plain_image(source.sb, source.reader.disk(), old(root)@),
        ),
{
    let bs = source.sb.block_size;
    let meta = source.sb.meta_blkaddr;
    sort_tree(root);
    proof {
        marked_is_countable(root@, bs as int, false);
    }
    mark_compressed(root, bs, false);
    assert(root@ == prepared(old(root)@, bs as int, false));
    let next = number_tree(root, bs, meta)?;
    let p = plan_fresh(root, next, bs, meta)?;
    let mut patches: Vec<Patch> = Vec::new();
    push_fresh_writes(&p, &mut patches);
    push_super_fields(&source.sb, &p, root.nid, &mut patches);
    proof {
        super::fresh::fresh_writes_fit(p@);
        small_writes_fit(source.sb, p@, root.nid);
        writes_fit_joins(fresh_writes(p@), super_fields(source.sb, p@, root.nid));
        assert(patch_views(patches@) =~= fresh_writes(p@) + super_fields(
            source.sb,
            p@,
            root.nid,
        ));
        assert(p.end_block * bs <= 0xffff_ffff * 65536) by (nonlinear_arith)
            requires
                p.end_block <= 0xffff_ffff,
                bs <= 65536,
        ;
    }
    lay_base(&source.reader, p.end_block * bs, store)?;
    put_fitting(store, &patches)?;
    let mut blocks = super::blocks::ErofsBlockSource::new(source);
    copy_files(&mut blocks, &p, store)
}

/// The image of a conversion without compression: nothing but zeros under
/// the metadata and the files.
pub open spec fn plain_conversion(
    v: Volume,
    root: NodeView,
    block_size: int,
    build_time: u64,
) -> Result<Seq<u8>, Fault> {
    match fresh_plan(prepared(root, block_size, false), block_size, 1) {
        Err(e) => Err(e),
        Ok((tree, f)) => with_files(
            laid_all(
                zeros(f.end_block * block_size),
                seq![
                    PatchView {
                        at: 1024,
                        data: super::fresh::super_bytes(
                            f,
                            0,
                            tree.nid,
                            build_time,
                            f.end_block,
                            zeros(16),
                            0,
                        ),
                    },
                ] + fresh_writes(f),
            ),
            v,
            f,
            f.list.len() as int,
        ),
    }
}

/// Writes a tree as an EROFS image without compression.
pub fn convert_plain<B: BlockSource, T: ByteStore>(
    source: &mut B,
    root: &mut Node,
    block_size: u64,
    build_time: u64,
    store: &mut T,
) -> (r: Result<(), Error>)
    requires
        old(source).wf(),
        512 <= block_size <= 65536,
    ensures
        final(store).failing() == old(store).failing(),
        stored(
            old(source).unreliable() || old(store).failing(),
            r,
            final(store).content(),
            plain_conversion(
                old(source).volume(),
                old(root)@,
                block_size as int,
                build_time,
            ),
        ),
{
    let bs = block_size;
    sort_tree(root);
    proof {
        marked_is_countable(root@, bs as int, false);
    }
    mark_compressed(root, bs, false);
    assert(root@ == prepared(old(root)@, bs as int, false));
    let next = number_tree(root, bs, 1)?;
    let p = plan_fresh(root, next, bs, 1)?;
    let none: [u8; 16] = [0; 16];
    let head = super::fresh::build_super(&p, 0, root.nid, build_time, p.end_block, &none, 0);
    let ghost head_view = PatchView { at: 1024, data: head@ };
    assert(none@ =~= zeros(16));
    let mut patches: Vec<Patch> = Vec::new();
    push_patch(&mut patches, 1024, head);
    push_fresh_writes(&p, &mut patches);
    proof {
        super::fresh::fresh_writes_fit(p@);
        super::fresh::super_length(
            p@,
            0,
            root.nid,
            build_time,
            p.end_block as int,
            zeros(16),
            0,
        );
        assert(super::fresh::writes_fit(seq![head_view]));
        writes_fit_joins(seq![head_view], fresh_writes(p@));
        assert(patch_views(patches@) =~= seq![head_view] + fresh_writes(p@));
        assert(p.end_block * bs <= 0xffff_ffff * 65536) by (nonlinear_arith)
            requires
                p.end_block <= 0xffff_ffff,
                bs <= 65536,
        ;
    }
    store.set_len(0)?;
    store.set_len(p.end_block * bs)?;
    assert(store.content() =~= zeros(p.end_block * bs));
    put_fitting(store, &patches)?;
    copy_files(source, &p, store)
}

} // verus!
