//! An image seen through patches: every byte that no patch covers stays
//! where it is.
use super::node::{node_views, node_views_take, Node, NodeView};
use super::source::Source;
use crate::buf::{bytes16, bytes32, get16, le16, push16, push32, put, zeroed};
use crate::error::{fail, Error, Fault};
use crate::fs::erofs::inode::{inode_offset, locate};
use crate::fs::erofs::Superblock;
use crate::image::{disk_read, ByteSink, ByteSource, Image};
use crate::sparse::{copy_bytes, sparse_container, sparsify};
use vstd::prelude::*;

verus! {

/// Bytes to write at an offset.
pub struct Patch {
    pub offset: u64,
    pub data: Vec<u8>,
}

/// The mathematical counterpart of [`Patch`].
#[verifier::ext_equal]
pub struct PatchView {
    pub at: int,
    pub data: Seq<u8>,
}

impl View for Patch {
    type V = PatchView;

    open spec fn view(&self) -> PatchView {
        PatchView { at: self.offset as int, data: self.data@ }
    }
}

/// The views of a sequence of patches.
pub open spec fn patch_views(s: Seq<Patch>) -> Seq<PatchView> {
    s.map_values(|p: Patch| p@)
}

impl PatchView {
    /// Whether the patch covers a position.
    pub open spec fn covers(self, p: int) -> bool {
        self.at <= p < self.at + self.data.len()
    }
}

/// The byte at a position: that of the last patch that covers it, or else
/// that of the image, with zeros behind its end.
pub open spec fn patched_byte(d: Seq<u8>, patches: Seq<PatchView>, p: int) -> u8
    decreases patches.len(),
{
    if patches.len() == 0 {
        if p < d.len() {
            d[p]
        } else {
            0
        }
    } else if patches.last().covers(p) {
        patches.last().data[p - patches.last().at]
    } else {
        patched_byte(d, patches.drop_last(), p)
    }
}

/// The first `size` bytes of the patched image.
pub open spec fn patched(d: Seq<u8>, patches: Seq<PatchView>, size: int) -> Seq<u8> {
    Seq::new(size as nat, |p: int| patched_byte(d, patches, p))
}

/// A byte that no patch covers is that of the image.
pub proof fn untouched_bytes_stay(d: Seq<u8>, patches: Seq<PatchView>, p: int)
    requires
        0 <= p < d.len(),
        forall|k: int| 0 <= k < patches.len() ==> !(#[trigger] patches[k]).covers(p),
    ensures
        patched_byte(d, patches, p) == d[p],
    decreases patches.len(),
{
    if patches.len() > 0 {
        assert(!patches[patches.len() - 1].covers(p));
        let t = patches.drop_last();
        assert forall|k: int| 0 <= k < t.len() implies !(#[trigger] t[k]).covers(p) by {
            assert(t[k] == patches[k]);
        }
        untouched_bytes_stay(d, t, p);
    }
}

/// A byte of a patch that no later patch covers is there.
pub proof fn patches_arrive(d: Seq<u8>, patches: Seq<PatchView>, k: int, p: int)
    requires
        0 <= k < patches.len(),
        patches[k].covers(p),
        forall|j: int| k < j < patches.len() ==> !(#[trigger] patches[j]).covers(p),
    ensures
        patched_byte(d, patches, p) == patches[k].data[p - patches[k].at],
    decreases patches.len(),
{
    if k < patches.len() - 1 {
        assert(!patches[patches.len() - 1].covers(p));
        let t = patches.drop_last();
        assert forall|j: int| k < j < t.len() implies !(#[trigger] t[j]).covers(p) by {
            assert(t[j] == patches[j]);
        }
        assert(t[k] == patches[k]);
        patches_arrive(d, t, k, p);
    }
}

/// An image seen through patches.
pub struct Patched<'a, S: ByteSource> {
    source: &'a Image<S>,
    patches: Vec<Patch>,
    size: u64,
}

impl<'a, S: ByteSource> Patched<'a, S> {
    #[verifier::type_invariant]
    spec fn sound(self) -> bool {
        self.source.wf()
    }

    /// The image.
    pub closed spec fn image(self) -> Image<S> {
        *self.source
    }

    /// The patches.
    pub closed spec fn list(self) -> Seq<PatchView> {
        patch_views(self.patches@)
    }

    /// The size of what is seen.
    pub closed spec fn extent(self) -> u64 {
        self.size
    }

    /// The first `size` bytes of an image, seen through patches.
    pub fn new(source: &'a Image<S>, patches: Vec<Patch>, size: u64) -> (r: Patched<'a, S>)
        requires
            source.wf(),
        ensures
            r.image() == *source,
            r.list() == patch_views(patches@),
            r.extent() == size,
            r.bytes() == patched(source.disk(), patch_views(patches@), size as int),
            r.faulty() == source.faulty(),
    {
        Patched { source, patches, size }
    }
}

/// The bytes of `out`, which stand at `offset`, with a patch over them.
spec fn over(out: Seq<u8>, offset: int, p: PatchView) -> Seq<u8> {
    Seq::new(
        out.len(),
        |i: int|
            if p.covers(offset + i) {
                p.data[offset + i - p.at]
            } else {
                out[i]
            },
    )
}

fn overlay(out: &mut Vec<u8>, offset: u64, patch: &Patch)
    requires
        offset + old(out)@.len() <= u64::MAX,
    ensures
        final(out)@ == over(old(out)@, offset as int, patch@),
{
    let ghost first = out@;
    let end = offset + out.len() as u64;
    let len = patch.data.len() as u64;
    if patch.offset >= end || len == 0 || (patch.offset < offset && offset - patch.offset >= len) {
        assert(out@ =~= over(first, offset as int, patch@));
        return;
    }
    let to: usize = if patch.offset > offset {
        (patch.offset - offset) as usize
    } else {
        0
    };
    let from: usize = if offset > patch.offset {
        (offset - patch.offset) as usize
    } else {
        0
    };
    let left = patch.data.len() - from;
    let room = out.len() - to;
    let n = if left < room {
        left
    } else {
        room
    };
    assert(patch.data@.subrange(from as int, from + n).len() == n);
    put(out, to, &patch.data[from..from + n]);
    assert(out@ =~= over(first, offset as int, patch@));
}

impl<'a, S: ByteSource> ByteSource for Patched<'a, S> {
    open spec fn bytes(&self) -> Seq<u8> {
        patched(self.image().disk(), self.list(), self.extent() as int)
    }

    open spec fn faulty(&self) -> bool {
        self.image().faulty()
    }

    fn len(&self) -> (n: u64) {
        self.size
    }

    fn read(&self, offset: u64, len: usize) -> (r: Result<Vec<u8>, Error>) {
        proof {
            use_type_invariant(self);
        }
        let end = match offset.checked_add(len as u64) {
            Some(n) => n,
            None => {
                return Err(Error::Io);
            },
        };
        if end > self.size {
            return Err(Error::Io);
        }
        let ghost d = self.source.disk();
        let base = self.source.size();
        let have: usize = if offset >= base {
            0
        } else if base - offset < len as u64 {
            (base - offset) as usize
        } else {
            len
        };
        let mut out: Vec<u8> = if have == 0 {
            Vec::new()
        } else {
            match self.source.read_at(offset, have) {
                Ok(v) => v,
                Err(_) => {
                    return Err(Error::Io);
                },
            }
        };
        proof {
            if have == 0 {
                assert(out@ =~= Seq::empty());
            }
        }
        let mut fill = zeroed(len - have);
        out.append(&mut fill);
        let ghost views = patch_views(self.patches@);
        assert(out@ =~= Seq::new(len as nat, |i: int| patched_byte(d, views.take(0), offset + i)));
        let mut k: usize = 0;
        while k < self.patches.len()
            invariant
                k <= self.patches@.len(),
                views == patch_views(self.patches@),
                offset + len <= u64::MAX,
                out@ == Seq::new(
                    len as nat,
                    |i: int| patched_byte(d, views.take(k as int), offset + i),
                ),
            decreases self.patches.len() - k,
        {
            let ghost before = out@;
            overlay(&mut out, offset, &self.patches[k]);
            proof {
                let t = views.take(k + 1);
                assert(t.drop_last() =~= views.take(k as int));
                assert(t.last() == self.patches@[k as int]@);
                assert(out@ =~= Seq::new(len as nat, |i: int| patched_byte(d, t, offset + i)));
            }
            k += 1;
        }
        assert(views.take(k as int) =~= views);
        assert(out@ =~= self.bytes().subrange(offset as int, offset + len));
        Ok(out)
    }
}

/// An image in its container.
pub open spec fn packaged(bytes: Seq<u8>, block_size: int, sparse: bool) -> Result<Seq<u8>, Fault> {
    if sparse {
        sparse_container(bytes, block_size)
    } else {
        Ok(bytes)
    }
}

/// Writes an image out, raw or as a sparse container.
pub fn write_image<S: ByteSource, O: ByteSink>(
    image: &S,
    block_size: usize,
    sparse: bool,
    out: &mut O,
) -> (r: Result<(), Error>)
    requires
        block_size >= 4,
    ensures
        final(out).full() == old(out).full(),
        match r {
            Ok(_) => packaged(image.bytes(), block_size as int, sparse) matches Ok(data)
                && final(out).written() == old(out).written() + data,
            Err(e) => packaged(image.bytes(), block_size as int, sparse) == Err::<Seq<u8>, Fault>(
                e@,
            ) || (e is Io && (image.faulty() || old(out).full())),
        },
{
    if sparse {
        return sparsify(image, block_size, out);
    }
    let n = image.len();
    let ghost c = image.bytes();
    assert(c.subrange(0, c.len() as int) =~= c);
    if n == 0 {
        assert(old(out).written() + c =~= old(out).written());
    }
    copy_bytes(image, 0, n, out)
}

// ---------------------------------------------------------------------
// Metadata
// ---------------------------------------------------------------------
/// The edit needs a rebuild.
pub open spec fn fallback<T>() -> Result<T, Fault> {
    fail("overlay unsupported; legacy rebuild required"@)
}

/// The edit needs a rebuild.
pub fn overlay_fallback() -> (e: Error)
    ensures
        e@ == Fault::Invalid("overlay unsupported; legacy rebuild required"@),
{
    Error::invalid("overlay unsupported; legacy rebuild required")
}

/// The patches that give an inode its mode, user and group. The widths
/// follow the format of the inode.
pub open spec fn owner_patches(at: int, format: u16, n: NodeView) -> Seq<PatchView> {
    if format % 2 == 1 {
        seq![
            PatchView { at: at + 4, data: bytes16(n.mode) },
            PatchView { at: at + 24, data: bytes32(n.uid) },
            PatchView { at: at + 28, data: bytes32(n.gid) },
        ]
    } else {
        seq![
            PatchView { at: at + 4, data: bytes16(n.mode) },
            PatchView { at: at + 24, data: bytes16(n.uid as u16) },
            PatchView { at: at + 26, data: bytes16(n.gid as u16) },
        ]
    }
}

/// The patches for the metadata of one node. A compact inode that has no room
/// for the owner needs a rebuild.
pub open spec fn node_patches(sb: Superblock, d: Seq<u8>, n: NodeView) -> Result<
    Seq<PatchView>,
    Fault,
> {
    let at = inode_offset(sb, n.nid);
    if at > u64::MAX {
        fail("EROFS inode offset overflow"@)
    } else {
        match disk_read(d, at, 2) {
            Err(e) => Err(e),
            Ok(x) => if at + 32 > u64::MAX {
                fail("EROFS inode offset overflow"@)
            } else if le16(x, 0) % 2 == 0 && n.widely_owned() {
                fallback()
            } else {
                Ok(owner_patches(at, le16(x, 0), n))
            },
        }
    }
}

/// The patches for the metadata of every changed node of the tree.
pub open spec fn metadata_patches(sb: Superblock, d: Seq<u8>, n: NodeView) -> Result<
    Seq<PatchView>,
    Fault,
>
    decreases n,
{
    match if n.modified {
        node_patches(sb, d, n)
    } else {
        Ok(Seq::empty())
    } {
        Err(e) => Err(e),
        Ok(own) => match all_metadata_patches(sb, d, n.children) {
            Err(e) => Err(e),
            Ok(rest) => Ok(own + rest),
        },
    }
}

/// The patches for the metadata of every changed node of the trees.
pub open spec fn all_metadata_patches(sb: Superblock, d: Seq<u8>, s: Seq<NodeView>) -> Result<
    Seq<PatchView>,
    Fault,
>
    decreases s,
{
    if s.len() == 0 {
        Ok(Seq::empty())
    } else {
        match all_metadata_patches(sb, d, s.subrange(0, s.len() - 1)) {
            Err(e) => Err(e),
            Ok(a) => match metadata_patches(sb, d, s[s.len() - 1]) {
                Err(e) => Err(e),
                Ok(b) => Ok(a + b),
            },
        }
    }
}

proof fn metadata_fails_early(sb: Superblock, d: Seq<u8>, s: Seq<NodeView>, i: int)
    requires
        0 <= i <= s.len(),
        all_metadata_patches(sb, d, s.take(i)) is Err,
    ensures
        all_metadata_patches(sb, d, s) == all_metadata_patches(sb, d, s.take(i)),
    decreases s.len(),
{
    if i == s.len() {
        assert(s.take(i) =~= s);
    } else {
        let t = s.subrange(0, s.len() - 1);
        assert(t.take(i) =~= s.take(i));
        metadata_fails_early(sb, d, t, i);
    }
}

/// A number as bytes.
pub fn word16(v: u16) -> (r: Vec<u8>)
    ensures
        r@ == bytes16(v),
{
    let mut out: Vec<u8> = Vec::new();
    push16(&mut out, v);
    assert(out@ =~= bytes16(v));
    out
}

/// A number as bytes.
pub fn word32(v: u32) -> (r: Vec<u8>)
    ensures
        r@ == bytes32(v),
{
    let mut out: Vec<u8> = Vec::new();
    push32(&mut out, v);
    assert(out@ =~= bytes32(v));
    out
}

/// Adds a patch.
pub fn push_patch(patches: &mut Vec<Patch>, offset: u64, data: Vec<u8>)
    ensures
        patch_views(final(patches)@) == patch_views(old(patches)@).push(
            PatchView { at: offset as int, data: data@ },
        ),
{
    let ghost before = patch_views(patches@);
    patches.push(Patch { offset, data });
    assert(patch_views(patches@) =~= before.push(PatchView { at: offset as int, data: data@ }));
}

/// Adds the patches for the metadata of one node.
pub fn patch_node<S: ByteSource>(source: &Source<S>, node: &Node, patches: &mut Vec<Patch>) -> (r:
    Result<(), Error>)
    requires
        source.wf(),
    ensures
        match r {
            Ok(_) => node_patches(source.sb, source.reader.disk(), node@) matches Ok(w)
                && patch_views(final(patches)@) == patch_views(old(patches)@) + w,
            Err(e) => node_patches(source.sb, source.reader.disk(), node@) == Err::<
                Seq<PatchView>,
                Fault,
            >(e@) || (source.reader.faulty() && e is Io),
        },
{
    let ghost before = patch_views(patches@);
    let at = locate(&source.sb, node.nid)?;
    let head = source.reader.read_at(at, 2)?;
    if at > u64::MAX - 32 {
        return Err(Error::invalid("EROFS inode offset overflow"));
    }
    let format = get16(&head, 0);
    if format % 2 == 0 && (node.uid > 0xffff || node.gid > 0xffff) {
        return Err(overlay_fallback());
    }
    push_patch(patches, at + 4, word16(node.mode));
    if format % 2 == 1 {
        push_patch(patches, at + 24, word32(node.uid));
        push_patch(patches, at + 28, word32(node.gid));
    } else {
        push_patch(patches, at + 24, word16(node.uid as u16));
        push_patch(patches, at + 26, word16(node.gid as u16));
    }
    assert(patch_views(patches@) =~= before + owner_patches(at as int, format, node@));
    Ok(())
}

/// Adds the patches for the metadata of every changed node of the tree.
pub fn collect_metadata_patches<S: ByteSource>(
    source: &Source<S>,
    node: &Node,
    patches: &mut Vec<Patch>,
) -> (r: Result<(), Error>)
    requires
        source.wf(),
    ensures
        match r {
            Ok(_) => metadata_patches(source.sb, source.reader.disk(), node@) matches Ok(w)
                && patch_views(final(patches)@) == patch_views(old(patches)@) + w,
            Err(e) => metadata_patches(source.sb, source.reader.disk(), node@) == Err::<
                Seq<PatchView>,
                Fault,
            >(e@) || (source.reader.faulty() && e is Io),
        },
    decreases node,
{
    let ghost before = patch_views(patches@);
    let ghost d = source.reader.disk();
    let ghost v = node_views(node.children@);
    if node.modified {
        match patch_node(source, node, patches) {
            Ok(_) => {},
            Err(e) => {
                return Err(e);
            },
        }
    }
    let ghost own = if node.modified {
        node_patches(source.sb, d, node@)->Ok_0
    } else {
        Seq::empty()
    };
    let mut i: usize = 0;
    proof {
        assert(v.take(0) =~= Seq::empty());
        assert(patch_views(patches@) =~= before + own + Seq::<PatchView>::empty());
    }
    while i < node.children.len()
        invariant
            source.wf(),
            i <= node.children@.len(),
            d == source.reader.disk(),
            v == node_views(node.children@),
            node@.children == v,
            all_metadata_patches(source.sb, d, v.take(i as int)) matches Ok(w) && patch_views(
                patches@,
            ) == before + own + w,
            if node.modified {
                node_patches(source.sb, d, node@) == Ok::<Seq<PatchView>, Fault>(own)
            } else {
                own == Seq::<PatchView>::empty()
            },
        decreases node.children.len() - i,
    {
        proof {
            node_views_take(node.children@, i as int);
        }
        let ghost w = all_metadata_patches(source.sb, d, v.take(i as int))->Ok_0;
        match collect_metadata_patches(source, &node.children[i], patches) {
            Ok(_) => {},
            Err(e) => {
                proof {
                    if !(source.reader.faulty() && e is Io) {
                        metadata_fails_early(source.sb, d, v, i + 1);
                    }
                }
                return Err(e);
            },
        }
        proof {
            let b = metadata_patches(source.sb, d, v[i as int])->Ok_0;
            assert(before + own + w + b =~= before + own + (w + b));
        }
        i += 1;
    }
    proof {
        assert(v.take(i as int) =~= v);
        let w = all_metadata_patches(source.sb, d, v)->Ok_0;
        assert(before + own + w =~= before + (own + w));
    }
    Ok(())
}

/// The image with the metadata of every changed node of the tree set, in its
/// container.
pub open spec fn retouched_image(sb: Superblock, d: Seq<u8>, root: NodeView, sparse: bool) -> Result<
    Seq<u8>,
    Fault,
> {
    match metadata_patches(sb, d, root) {
        Err(e) => Err(e),
        Ok(w) => packaged(patched(d, w, d.len() as int), sb.block_size as int, sparse),
    }
}

/// Writes the image out with the metadata of every changed node of the tree
/// set. Nothing else changes.
pub fn patch_inode_metadata<S: ByteSource, O: ByteSink>(
    source: &Source<S>,
    root: &Node,
    sparse: bool,
    out: &mut O,
) -> (r: Result<(), Error>)
    requires
        source.wf(),
    ensures
        final(out).full() == old(out).full(),
        match r {
            Ok(_) => retouched_image(source.sb, source.reader.disk(), root@, sparse) matches Ok(
                data,
            ) && final(out).written() == old(out).written() + data,
            Err(e) => retouched_image(source.sb, source.reader.disk(), root@, sparse) == Err::<
                Seq<u8>,
                Fault,
            >(e@) || (e is Io && (source.reader.faulty() || old(out).full())),
        },
{
    let mut patches: Vec<Patch> = Vec::new();
    assert(patch_views(patches@) =~= Seq::empty());
    match collect_metadata_patches(source, root, &mut patches) {
        Ok(_) => {},
        Err(e) => {
            return Err(e);
        },
    }
    proof {
        let w = metadata_patches(source.sb, source.reader.disk(), root@)->Ok_0;
        assert(patch_views(patches@) =~= w);
    }
    let n = source.reader.size();
    let image = Patched::new(&source.reader, patches, n);
    write_image(&image, source.sb.block_size as usize, sparse, out)
}

} // verus!
