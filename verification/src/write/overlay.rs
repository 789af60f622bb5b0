//! Edits that keep every untouched byte of an EROFS image where it is:
//! changed inodes are patched, and new content and changed directories go
//! behind the end.
use super::layout::{directory_bytes, directory_content};
use super::node::{
    children_seen, node_views, node_views_take, set_parents, sort_tree, sorted_tree, with_parents,
    Node, NodePayload, NodeView, PayloadView,
};
use super::patch::{
    fallback, node_patches, overlay_fallback, packaged, patch_node, patch_views, patched, push_patch,
    word32, write_image, Patch, PatchView, Patched,
};
use super::source::{content_of, Source};
use crate::buf::{
    bytes16, bytes32, bytes64, get16, le16, push16, push32, push64, push_bytes, zeroed, zeros,
};
use crate::error::{fail, told, Error, Fault};
use crate::fs::erofs::inode::{inode_offset, locate};
use crate::fs::erofs::xattr::{area_size, sized_area};
use crate::fs::erofs::Superblock;
use crate::image::{disk_read, ByteSink, ByteSource};
use crate::math::{ceil_div, ceil_div_covers, div_up};
use crate::text::{same_strings, sort_strings, sorted_texts, texts};
use vstd::prelude::*;

verus! {

// ---------------------------------------------------------------------
// Membership
// ---------------------------------------------------------------------
/// The names of the children.
pub open spec fn names_of(s: Seq<NodeView>) -> Seq<Seq<char>> {
    s.map_values(|n: NodeView| n.name)
}

/// A directory and the names in it.
pub struct DirNames {
    pub nid: u64,
    pub names: Vec<String>,
}

/// The mathematical counterpart of [`DirNames`].
#[verifier::ext_equal]
pub struct DirNamesView {
    pub nid: u64,
    pub names: Seq<Seq<char>>,
}

impl View for DirNames {
    type V = DirNamesView;

    open spec fn view(&self) -> DirNamesView {
        DirNamesView { nid: self.nid, names: texts(self.names@) }
    }
}

/// The views of a sequence of directories.
pub open spec fn dir_views(s: Seq<DirNames>) -> Seq<DirNamesView> {
    s.map_values(|x: DirNames| x@)
}

/// The directories of the tree with the names in each, in order.
pub open spec fn membership(n: NodeView) -> Seq<DirNamesView>
    decreases n,
{
    if n.is_dir() {
        seq![DirNamesView { nid: n.nid, names: sorted_texts(names_of(n.children)) }]
            + all_membership(n.children)
    } else {
        Seq::empty()
    }
}

/// The directories of the trees with the names in each, in order.
pub open spec fn all_membership(s: Seq<NodeView>) -> Seq<DirNamesView>
    decreases s,
{
    if s.len() == 0 {
        Seq::empty()
    } else {
        all_membership(s.subrange(0, s.len() - 1)) + membership(s[s.len() - 1])
    }
}

fn child_names(node: &Node) -> (names: Vec<String>)
    ensures
        texts(names@) == sorted_texts(names_of(node@.children)),
{
    let ghost all = names_of(node@.children);
    let mut names: Vec<String> = Vec::new();
    let mut i: usize = 0;
    proof {
        children_seen(*node);
        assert forall|k: int| 0 <= k < all.len() implies all[k] == (
        #[trigger] node.children@[k]).name@ by {
            assert(node@.children[k] == node.children@[k]@);
        }
        assert(texts(names@) =~= all.take(0));
    }
    while i < node.children.len()
        invariant
            i <= node.children@.len() == all.len(),
            forall|k: int| 0 <= k < all.len() ==> all[k] == (#[trigger] node.children@[k]).name@,
            texts(names@) == all.take(i as int),
        decreases node.children.len() - i,
    {
        let name = node.children[i].name.clone();
        let ghost before = texts(names@);
        names.push(name);
        assert(texts(names@) =~= before.push(name@));
        assert(all.take(i + 1) =~= all.take(i as int).push(all[i as int]));
        i += 1;
    }
    assert(all.take(i as int) =~= all);
    sort_strings(names)
}

/// Lists the directories of the tree with the names in each.
pub fn snapshot_dirs(node: &Node, out: &mut Vec<DirNames>)
    ensures
        dir_views(final(out)@) == dir_views(old(out)@) + membership(node@),
    decreases node,
{
    let ghost before = dir_views(out@);
    if !node.is_dir() {
        assert(before + Seq::<DirNamesView>::empty() =~= before);
        return;
    }
    let names = child_names(node);
    let ghost own = DirNamesView { nid: node.nid, names: texts(names@) };
    out.push(DirNames { nid: node.nid, names });
    assert(dir_views(out@) =~= before + seq![own]);
    let ghost v = node_views(node.children@);
    let mut i: usize = 0;
    assert(v.take(0) =~= Seq::empty());
    assert(before + seq![own] + all_membership(v.take(0)) =~= before + seq![own]);
    while i < node.children.len()
        invariant
            i <= node.children@.len(),
            v == node_views(node.children@),
            dir_views(out@) == before + seq![own] + all_membership(v.take(i as int)),
        decreases node.children.len() - i,
    {
        proof {
            node_views_take(node.children@, i as int);
        }
        snapshot_dirs(&node.children[i], out);
        proof {
            assert(dir_views(out@) =~= before + seq![own] + all_membership(v.take(i + 1)));
        }
        i += 1;
    }
    proof {
        assert(v.take(i as int) =~= v);
        assert(dir_views(out@) =~= before + membership(node@));
    }
}

/// The names of a directory: what was listed last under its number.
pub open spec fn names_before(before: Seq<DirNamesView>, nid: u64) -> Option<Seq<Seq<char>>>
    decreases before.len(),
{
    if before.len() == 0 {
        None
    } else if before.last().nid == nid {
        Some(before.last().names)
    } else {
        names_before(before.drop_last(), nid)
    }
}

fn find_names<'a>(before: &'a Vec<DirNames>, nid: u64) -> (r: Option<&'a Vec<String>>)
    ensures
        match r {
            Some(v) => names_before(dir_views(before@), nid) == Some(texts(v@)),
            None => names_before(dir_views(before@), nid) is None,
        },
{
    let ghost all = dir_views(before@);
    let mut i = before.len();
    assert(all.take(i as int) =~= all);
    while i > 0
        invariant
            i <= before@.len(),
            all == dir_views(before@),
            names_before(all, nid) == names_before(all.take(i as int), nid),
        decreases i,
    {
        proof {
            let t = all.take(i as int);
            assert(t.last() == before@[i - 1]@);
            assert(t.drop_last() =~= all.take(i - 1));
        }
        if before[i - 1].nid == nid {
            return Some(&before[i - 1].names);
        }
        i -= 1;
    }
    None
}

/// Whether a context was asked for anywhere in the tree.
pub open spec fn has_explicit_context(n: NodeView) -> bool
    decreases n,
{
    n.context_explicit || exists|i: int|
        0 <= i < n.children.len() && has_explicit_context(#[trigger] n.children[i])
}

/// Whether a context was asked for anywhere in the tree.
pub fn root_has_explicit_context(node: &Node) -> (b: bool)
    ensures
        b == has_explicit_context(node@),
    decreases node,
{
    if node.context_explicit {
        return true;
    }
    proof {
        children_seen(*node);
    }
    let mut i: usize = 0;
    while i < node.children.len()
        invariant
            i <= node.children@.len() == node@.children.len(),
            !node.context_explicit,
            forall|k: int|
                0 <= k < node.children@.len() ==> #[trigger] node@.children[k]
                    == node.children@[k]@,
            forall|k: int| 0 <= k < i ==> !has_explicit_context(#[trigger] node@.children[k]),
        decreases node.children.len() - i,
    {
        if root_has_explicit_context(&node.children[i]) {
            assert(has_explicit_context(node@.children[i as int]));
            return true;
        }
        assert(node@.children[i as int] == node.children@[i as int]@);
        i += 1;
    }
    false
}

// ---------------------------------------------------------------------
// The tail
// ---------------------------------------------------------------------
/// Patches and appended content.
pub struct TailCtx {
    pub patches: Vec<Patch>,
    /// Everything appended so far, in order.
    pub tail: Vec<u8>,
    /// Where the next appended content goes.
    pub cursor: u64,
    pub new_inodes: u64,
    /// Numbers of the inodes that were written whole.
    pub rewritten: Vec<u64>,
}

/// The mathematical counterpart of [`TailCtx`].
#[verifier::ext_equal]
pub struct TailView {
    pub patches: Seq<PatchView>,
    pub tail: Seq<u8>,
    pub cursor: int,
    pub new_inodes: int,
    pub rewritten: Seq<u64>,
}

impl View for TailCtx {
    type V = TailView;

    open spec fn view(&self) -> TailView {
        TailView {
            patches: patch_views(self.patches@),
            tail: self.tail@,
            cursor: self.cursor as int,
            new_inodes: self.new_inodes as int,
            rewritten: self.rewritten@,
        }
    }
}

/// The tail with content appended in whole blocks, and where the content is.
pub open spec fn appended(c: TailView, block_size: int, data: Seq<u8>) -> Result<
    (TailView, int),
    Fault,
> {
    let room = ceil_div(data.len() as int, block_size) * block_size;
    if c.cursor + room > u64::MAX {
        fail("EROFS physical block overflow"@)
    } else {
        Ok(
            (
                TailView {
                    tail: c.tail + data + zeros(room - data.len()),
                    cursor: c.cursor + room,
                    ..c
                },
                c.cursor,
            ),
        )
    }
}

/// A compact inode of the plain layout.
pub open spec fn compact_inode(
    format: u16,
    icount: u16,
    mode: u16,
    size: u32,
    raw: u32,
    nid: u32,
    uid: u16,
    gid: u16,
) -> Seq<u8> {
    bytes16(format) + bytes16(icount) + bytes16(mode) + bytes16(1) + bytes32(size) + zeros(4)
        + bytes32(raw) + bytes32(nid) + bytes16(uid) + bytes16(gid) + zeros(4)
}

/// A compact inode of the plain layout.
pub fn fresh_inode(
    format: u16,
    icount: u16,
    mode: u16,
    size: u32,
    raw: u32,
    nid: u32,
    uid: u16,
    gid: u16,
) -> (v: Vec<u8>)
    ensures
        v@ == compact_inode(format, icount, mode, size, raw, nid, uid, gid),
{
    let mut v: Vec<u8> = Vec::new();
    let gap = zeroed(4);
    push16(&mut v, format);
    push16(&mut v, icount);
    push16(&mut v, mode);
    push16(&mut v, 1);
    push32(&mut v, size);
    push_bytes(&mut v, &gap);
    push32(&mut v, raw);
    push32(&mut v, nid);
    push16(&mut v, uid);
    push16(&mut v, gid);
    push_bytes(&mut v, &gap);
    assert(v@ =~= compact_inode(format, icount, mode, size, raw, nid, uid, gid));
    v
}

/// An extended inode.
pub open spec fn extended_inode(
    format: u16,
    icount: u16,
    mode: u16,
    size: u32,
    raw: u32,
    nid: u32,
    uid: u32,
    gid: u32,
) -> Seq<u8> {
    bytes16(format) + bytes16(icount) + bytes16(mode) + zeros(2) + bytes64(size as u64) + bytes32(raw)
        + bytes32(nid) + bytes32(uid) + bytes32(gid) + zeros(12) + bytes32(1) + zeros(16)
}

/// An extended inode.
pub fn fresh_extended_inode(
    format: u16,
    icount: u16,
    mode: u16,
    size: u32,
    raw: u32,
    nid: u32,
    uid: u32,
    gid: u32,
) -> (v: Vec<u8>)
    ensures
        v@ == extended_inode(format, icount, mode, size, raw, nid, uid, gid),
{
    let mut v: Vec<u8> = Vec::new();
    push16(&mut v, format);
    push16(&mut v, icount);
    push16(&mut v, mode);
    push_bytes(&mut v, &zeroed(2));
    push64(&mut v, size as u64);
    push32(&mut v, raw);
    push32(&mut v, nid);
    push32(&mut v, uid);
    push32(&mut v, gid);
    push_bytes(&mut v, &zeroed(12));
    push32(&mut v, 1);
    push_bytes(&mut v, &zeroed(16));
    assert(v@ =~= extended_inode(format, icount, mode, size, raw, nid, uid, gid));
    v
}

/// The inode of a node, compact or extended, with a format that says which
/// layout its content has.
#[verifier::opaque]
pub open spec fn inode_body(n: NodeView, layout: u16, icount: u16, size: u32, raw: u32) -> Seq<u8> {
    if n.widely_owned() {
        extended_inode(
            (2 * layout + 1) as u16,
            icount,
            n.mode,
            size,
            raw,
            n.nid as u32,
            n.uid,
            n.gid,
        )
    } else {
        compact_inode(
            (2 * layout) as u16,
            icount,
            n.mode,
            size,
            raw,
            n.nid as u32,
            n.uid as u16,
            n.gid as u16,
        )
    }
}

/// An inode has the length that its owner asks for.
pub proof fn body_length(n: NodeView, layout: u16, icount: u16, size: u32, raw: u32)
    ensures
        inode_body(n, layout, icount, size, raw).len() == n.body(),
{
    reveal(inode_body);
}

/// Nodes with the same number, mode and owner have the same inode.
pub proof fn bodies_agree(a: NodeView, b: NodeView, layout: u16, icount: u16, size: u32, raw: u32)
    requires
        a.nid == b.nid,
        a.mode == b.mode,
        a.uid == b.uid,
        a.gid == b.gid,
    ensures
        inode_body(a, layout, icount, size, raw) == inode_body(b, layout, icount, size, raw),
{
    reveal(inode_body);
}

/// Builds the inode of a node with the given number.
pub fn build_inode_body(node: &Node, nid: u64, layout: u16, icount: u16, size: u32, raw: u32) -> (v:
    Vec<u8>)
    requires
        layout < 8,
    ensures
        v@ == inode_body(NodeView { nid, ..node@ }, layout, icount, size, raw),
{
    proof {
        reveal(inode_body);
    }
    if node.uid > 0xffff || node.gid > 0xffff {
        fresh_extended_inode(
            2 * layout + 1,
            icount,
            node.mode,
            size,
            raw,
            nid as u32,
            node.uid,
            node.gid,
        )
    } else {
        fresh_inode(
            2 * layout,
            icount,
            node.mode,
            size,
            raw,
            nid as u32,
            node.uid as u16,
            node.gid as u16,
        )
    }
}

/// The count that an inode gives for an area of extended attributes.
pub open spec fn area_count(area: Seq<u8>) -> u16 {
    if area.len() < 8 {
        0
    } else {
        ((area.len() - 8) / 4) as u16
    }
}

/// The number of an inode that is appended next: the slot behind the end of
/// the image where it comes to stand.
pub open spec fn fresh_number(sb: Superblock, cursor: int) -> u64 {
    if cursor < sb.meta_blkaddr * sb.block_size {
        0
    } else {
        ((cursor - sb.meta_blkaddr * sb.block_size) / 32) as u64
    }
}

/// The tail with a fresh inode appended, and the number of the inode. It
/// stands behind everything that the image holds.
pub open spec fn with_fresh(
    c: TailView,
    sb: Superblock,
    n: NodeView,
    size: u32,
    raw: u32,
    area: Seq<u8>,
) -> Result<(TailView, u64), Fault> {
    let nid = fresh_number(sb, c.cursor);
    if c.cursor <= sb.meta_blkaddr * sb.block_size {
        fallback()
    } else {
        match appended(
            c,
            sb.block_size as int,
            inode_body(NodeView { nid, ..n }, 0, area_count(area), size, raw) + area,
        ) {
            Err(e) => Err(e),
            Ok((t, _)) => Ok((TailView { rewritten: t.rewritten.push(nid), ..t }, nid)),
        }
    }
}

/// The area of extended attributes of an inode.
pub open spec fn xattr_area_of(sb: Superblock, d: Seq<u8>, nid: u64) -> Result<Seq<u8>, Fault> {
    let at = inode_offset(sb, nid);
    if at > u64::MAX {
        fail("EROFS inode offset overflow"@)
    } else {
        match disk_read(d, at, 64) {
            Err(e) => Err(e),
            Ok(x) => match sized_area(le16(x, 2) as int) {
                Err(e) => Err(e),
                Ok(n) => {
                    let body: int = if le16(x, 0) % 2 == 1 {
                        64
                    } else {
                        32
                    };
                    if n == 0 {
                        Ok(Seq::empty())
                    } else if at + body > u64::MAX {
                        fail("EROFS xattr offset overflow"@)
                    } else {
                        disk_read(d, at + body, n as int)
                    }
                },
            },
        }
    }
}

/// The area of extended attributes of an inode.
pub fn source_xattr_area<S: ByteSource>(source: &Source<S>, nid: u64) -> (r: Result<Vec<u8>, Error>)
    requires
        source.wf(),
    ensures
        told(source.reader.faulty(), r, xattr_area_of(source.sb, source.reader.disk(), nid)),
        r matches Ok(v) ==> v@.len() <= 0x10_0000,
{
    let at = locate(&source.sb, nid)?;
    let head = source.reader.read_at(at, 64)?;
    let n = area_size(get16(&head, 2) as u64)?;
    if n == 0 {
        let none: Vec<u8> = Vec::new();
        assert(none@ =~= Seq::empty());
        return Ok(none);
    }
    let body: u64 = if get16(&head, 0) % 2 == 1 {
        64
    } else {
        32
    };
    match at.checked_add(body) {
        None => Err(Error::invalid("EROFS xattr offset overflow")),
        Some(from) => source.reader.read_at(from, n as usize),
    }
}

/// The inode `x` with new data fields: the plain layout, and everything that
/// is not named stays. A compact inode that has no room for the owner needs a
/// rebuild.
pub open spec fn repatched_inode(
    x: Seq<u8>,
    nid: u64,
    mode: u16,
    size: u64,
    raw: u32,
    uid: u32,
    gid: u32,
) -> Result<Seq<u8>, Fault> {
    let head = bytes16(le16(x, 0) & 0xfff1) + x.subrange(2, 4) + bytes16(mode) + x.subrange(6, 8);
    if le16(x, 0) % 2 == 1 {
        Ok(
            head + bytes64(size) + bytes32(raw) + bytes32(nid as u32) + bytes32(uid) + bytes32(gid)
                + x.subrange(32, 64),
        )
    } else if size > u32::MAX {
        fail("file is too large for a compact inode"@)
    } else if uid > 0xffff || gid > 0xffff {
        fallback()
    } else {
        Ok(
            head + bytes32(size as u32) + x.subrange(12, 16) + bytes32(raw) + bytes32(nid as u32)
                + bytes16(uid as u16) + bytes16(gid as u16) + x.subrange(28, 32),
        )
    }
}

/// The tail with an inode of the image patched.
pub open spec fn with_repatch(
    c: TailView,
    sb: Superblock,
    d: Seq<u8>,
    n: NodeView,
    size: u64,
    raw: u32,
) -> Result<TailView, Fault> {
    let at = inode_offset(sb, n.nid);
    if at > u64::MAX {
        fail("EROFS inode offset overflow"@)
    } else {
        match disk_read(d, at, 64) {
            Err(e) => Err(e),
            Ok(x) => match repatched_inode(x, n.nid, n.mode, size, raw, n.uid, n.gid) {
                Err(e) => Err(e),
                Ok(inode) => Ok(
                    TailView {
                        patches: c.patches.push(PatchView { at, data: inode }),
                        rewritten: c.rewritten.push(n.nid),
                        ..c
                    },
                ),
            },
        }
    }
}

fn repatch_bytes(
    x: &Vec<u8>,
    nid: u64,
    mode: u16,
    size: u64,
    raw: u32,
    uid: u32,
    gid: u32,
) -> (r: Result<Vec<u8>, Error>)
    requires
        x@.len() == 64,
    ensures
        match r {
            Ok(v) => repatched_inode(x@, nid, mode, size, raw, uid, gid) == Ok::<Seq<u8>, Fault>(
                v@,
            ),
            Err(e) => repatched_inode(x@, nid, mode, size, raw, uid, gid) == Err::<Seq<u8>, Fault>(
                e@,
            ),
        },
{
    let format = get16(x, 0);
    let mut v: Vec<u8> = Vec::new();
    push16(&mut v, format & 0xfff1);
    push_bytes(&mut v, &x[2..4]);
    push16(&mut v, mode);
    push_bytes(&mut v, &x[6..8]);
    let ghost head = v@;
    assert(head =~= bytes16(le16(x@, 0) & 0xfff1) + x@.subrange(2, 4) + bytes16(mode)
        + x@.subrange(6, 8));
    if format % 2 == 1 {
        push64(&mut v, size);
        push32(&mut v, raw);
        push32(&mut v, nid as u32);
        push32(&mut v, uid);
        push32(&mut v, gid);
        push_bytes(&mut v, &x[32..64]);
    } else {
        if size > u32::MAX as u64 {
            return Err(Error::invalid("file is too large for a compact inode"));
        }
        if uid > 0xffff || gid > 0xffff {
            return Err(overlay_fallback());
        }
        push32(&mut v, size as u32);
        push_bytes(&mut v, &x[12..16]);
        push32(&mut v, raw);
        push32(&mut v, nid as u32);
        push16(&mut v, uid as u16);
        push16(&mut v, gid as u16);
        push_bytes(&mut v, &x[28..32]);
    }
    Ok(v)
}

impl TailCtx {
    /// Appends content in whole blocks. The result is where it is.
    pub fn append(&mut self, block_size: u64, data: &[u8]) -> (r: Result<u64, Error>)
        requires
            0 < block_size <= 65536,
        ensures
            match appended(old(self)@, block_size as int, data@) {
                Ok((c, at)) => r is Ok && r->Ok_0 == at && final(self)@ == c,
                Err(e) => r is Err && r->Err_0@ == e,
            },
    {
        proof {
            ceil_div_covers(data@.len() as int, block_size as int);
        }
        let at = self.cursor;
        let blocks = div_up(data.len() as u64, block_size);
        let room = match blocks.checked_mul(block_size) {
            Some(n) => n,
            None => {
                return Err(Error::invalid("EROFS physical block overflow"));
            },
        };
        let end = match at.checked_add(room) {
            Some(n) => n,
            None => {
                return Err(Error::invalid("EROFS physical block overflow"));
            },
        };
        let ghost before = self.tail@;
        push_bytes(&mut self.tail, data);
        let pad = zeroed((room - data.len() as u64) as usize);
        push_bytes(&mut self.tail, &pad);
        assert(self.tail@ =~= before + data@ + zeros(room - data@.len()));
        self.cursor = end;
        Ok(at)
    }

    /// Appends a fresh inode. The result is its number.
    pub fn fresh_inode_patch(
        &mut self,
        sb: &Superblock,
        node: &Node,
        size: u32,
        raw: u32,
        area: &Vec<u8>,
    ) -> (r: Result<u64, Error>)
        requires
            sb.wf(),
            0 < sb.block_size <= 65536,
        ensures
            match with_fresh(old(self)@, *sb, node@, size, raw, area@) {
                Ok((c, nid)) => r is Ok && r->Ok_0 == nid && final(self)@ == c,
                Err(e) => r is Err && r->Err_0@ == e,
            },
    {
        assert(sb.meta_blkaddr * sb.block_size <= 0xffff_ffff * 65536) by (nonlinear_arith)
            requires
                sb.meta_blkaddr <= 0xffff_ffff,
                sb.block_size <= 65536,
        ;
        let base = sb.meta_blkaddr * sb.block_size;
        if self.cursor <= base {
            return Err(overlay_fallback());
        }
        let nid = (self.cursor - base) / 32;
        let count: u16 = if area.len() < 8 {
            0
        } else {
            ((area.len() - 8) / 4) as u16
        };
        let mut inode = build_inode_body(node, nid, 0, count, size, raw);
        push_bytes(&mut inode, area);
        self.append(sb.block_size, &inode)?;
        self.rewritten.push(nid);
        Ok(nid)
    }

    /// Writes an inode of the image again.
    pub fn repatch_inode<S: ByteSource>(
        &mut self,
        source: &Source<S>,
        node: &Node,
        size: u64,
        raw: u32,
    ) -> (r: Result<(), Error>)
        requires
            source.wf(),
        ensures
            match r {
                Ok(_) => with_repatch(
                    old(self)@,
                    source.sb,
                    source.reader.disk(),
                    node@,
                    size,
                    raw,
                ) == Ok::<TailView, Fault>(final(self)@),
                Err(e) => with_repatch(
                    old(self)@,
                    source.sb,
                    source.reader.disk(),
                    node@,
                    size,
                    raw,
                ) == Err::<TailView, Fault>(e@) || (source.reader.faulty() && e is Io),
            },
    {
        let at = locate(&source.sb, node.nid)?;
        let x = source.reader.read_at(at, 64)?;
        let inode = repatch_bytes(&x, node.nid, node.mode, size, raw, node.uid, node.gid)?;
        push_patch(&mut self.patches, at, inode);
        self.rewritten.push(node.nid);
        Ok(())
    }

    fn is_rewritten(&self, nid: u64) -> (b: bool)
        ensures
            b == self@.rewritten.contains(nid),
    {
        let mut i: usize = 0;
        while i < self.rewritten.len()
            invariant
                i <= self.rewritten@.len(),
                forall|k: int| 0 <= k < i ==> self.rewritten@[k] != nid,
            decreases self.rewritten.len() - i,
        {
            if self.rewritten[i] == nid {
                return true;
            }
            i += 1;
        }
        false
    }
}

// ---------------------------------------------------------------------
// New files
// ---------------------------------------------------------------------
/// The content of a node behind the end, in the plain layout: where it is
/// and how long. Content from outside is appended; content of the image that
/// is plain already stays where it is; other content of the image is
/// unpacked.
pub open spec fn placed_content(c: TailView, sb: Superblock, d: Seq<u8>, n: NodeView) -> Result<
    (TailView, u32, u64),
    Fault,
> {
    match n.payload {
        PayloadView::Memory(data) => appended_content(c, sb, data),
        _ => if n.original_nid == 0 {
            appended_content(c, sb, n.data())
        } else if n.layout == 0 {
            Ok((c, n.raw_block, n.data_size))
        } else {
            match content_of(sb, d, n.original_nid) {
                Err(e) => Err(e),
                Ok(data) => appended_content(c, sb, data),
            }
        },
    }
}

/// Content behind the end: where it is and how long.
pub open spec fn appended_content(c: TailView, sb: Superblock, data: Seq<u8>) -> Result<
    (TailView, u32, u64),
    Fault,
> {
    if data.len() == 0 {
        Ok((c, 0, 0))
    } else {
        match appended(c, sb.block_size as int, data) {
            Err(e) => Err(e),
            Ok((t, at)) => Ok((t, (at / sb.block_size as int) as u32, data.len() as u64)),
        }
    }
}

fn append_content(ctx: &mut TailCtx, sb: &Superblock, data: &[u8]) -> (r: Result<(u32, u64), Error>)
    requires
        0 < sb.block_size <= 65536,
    ensures
        match appended_content(old(ctx)@, *sb, data@) {
            Ok((c, raw, size)) => r is Ok && r->Ok_0 == (raw, size) && final(ctx)@ == c,
            Err(e) => r is Err && r->Err_0@ == e,
        },
{
    if data.len() == 0 {
        return Ok((0, 0));
    }
    let at = ctx.append(sb.block_size, data)?;
    Ok(((at / sb.block_size) as u32, data.len() as u64))
}

fn place_content<S: ByteSource>(ctx: &mut TailCtx, source: &Source<S>, node: &Node) -> (r: Result<
    (u32, u64),
    Error,
>)
    requires
        source.wf(),
    ensures
        match r {
            Ok((raw, size)) => placed_content(
                old(ctx)@,
                source.sb,
                source.reader.disk(),
                node@,
            ) == Ok::<(TailView, u32, u64), Fault>((final(ctx)@, raw, size)),
            Err(e) => placed_content(old(ctx)@, source.sb, source.reader.disk(), node@) == Err::<
                (TailView, u32, u64),
                Fault,
            >(e@) || (source.reader.faulty() && e is Io),
        },
{
    if let NodePayload::Memory(data) = &node.payload {
        return append_content(ctx, &source.sb, data);
    }
    if node.original_nid == 0 {
        return append_content(ctx, &source.sb, node.data());
    }
    if node.layout == 0 {
        return Ok((node.raw_block, node.data_size));
    }
    let data = source.data(node.original_nid)?;
    append_content(ctx, &source.sb, &data)
}

/// A child with a number: a new file gets a fresh inode behind the end.
/// New directories and contexts that were asked for need a rebuild.
pub open spec fn settled_child(
    c: TailView,
    sb: Superblock,
    d: Seq<u8>,
    n: NodeView,
    parent: u64,
) -> Result<(NodeView, TailView), Fault> {
    if n.nid != 0 {
        Ok((n, c))
    } else if n.is_dir() || n.context_explicit {
        fallback()
    } else {
        match if n.original_nid == 0 {
            Ok(Seq::empty())
        } else {
            xattr_area_of(sb, d, n.original_nid)
        } {
            Err(e) => Err(e),
            Ok(area) => match placed_content(c, sb, d, n) {
                Err(e) => Err(e),
                Ok((c1, raw, size)) => match with_fresh(c1, sb, n, size as u32, raw, area) {
                    Err(e) => Err(e),
                    Ok((c2, nid)) => if c2.new_inodes + 1 > u64::MAX {
                        fail("EROFS inode offset overflow"@)
                    } else {
                        Ok(
                            (
                                NodeView { nid, parent_nid: parent, ..n },
                                TailView { new_inodes: c2.new_inodes + 1, ..c2 },
                            ),
                        )
                    },
                },
            },
        }
    }
}

/// The trees with every new file settled.
pub open spec fn all_settled(
    c: TailView,
    sb: Superblock,
    d: Seq<u8>,
    s: Seq<NodeView>,
    parent: u64,
) -> Result<(Seq<NodeView>, TailView), Fault>
    decreases s,
{
    if s.len() == 0 {
        Ok((s, c))
    } else {
        match all_settled(c, sb, d, s.subrange(0, s.len() - 1), parent) {
            Err(e) => Err(e),
            Ok((done, c1)) => {
                let n = s[s.len() - 1];
                match settled_child(c1, sb, d, n, parent) {
                    Err(e) => Err(e),
                    Ok((m, c2)) => match all_settled(c2, sb, d, n.children, m.nid) {
                        Err(e) => Err(e),
                        Ok((children, c3)) => Ok(
                            (done.push(NodeView { children, ..m }), c3),
                        ),
                    },
                }
            },
        }
    }
}

proof fn settling_fails_early(
    c: TailView,
    sb: Superblock,
    d: Seq<u8>,
    s: Seq<NodeView>,
    parent: u64,
    i: int,
)
    requires
        0 <= i <= s.len(),
        all_settled(c, sb, d, s.take(i), parent) is Err,
    ensures
        all_settled(c, sb, d, s, parent) == all_settled(c, sb, d, s.take(i), parent),
    decreases s.len(),
{
    if i == s.len() {
        assert(s.take(i) =~= s);
    } else {
        let t = s.subrange(0, s.len() - 1);
        assert(t.take(i) =~= s.take(i));
        settling_fails_early(c, sb, d, t, parent, i);
    }
}

fn settle_child<S: ByteSource>(
    source: &Source<S>,
    node: &mut Node,
    parent: u64,
    ctx: &mut TailCtx,
) -> (r: Result<(), Error>)
    requires
        source.wf(),
    ensures
        match r {
            Ok(_) => settled_child(
                old(ctx)@,
                source.sb,
                source.reader.disk(),
                old(node)@,
                parent,
            ) == Ok::<(NodeView, TailView), Fault>((final(node)@, final(ctx)@))
                && final(node).children == old(node).children,
            Err(e) => settled_child(
                old(ctx)@,
                source.sb,
                source.reader.disk(),
                old(node)@,
                parent,
            ) == Err::<(NodeView, TailView), Fault>(e@) || (source.reader.faulty() && e is Io),
        },
{
    if node.nid != 0 {
        return Ok(());
    }
    if node.is_dir() || node.context_explicit {
        return Err(overlay_fallback());
    }
    let area = if node.original_nid == 0 {
        Vec::new()
    } else {
        source_xattr_area(source, node.original_nid)?
    };
    assert(node.original_nid == 0 ==> area@ =~= Seq::empty());
    let (raw, size) = place_content(ctx, source, node)?;
    let nid = ctx.fresh_inode_patch(&source.sb, node, size as u32, raw, &area)?;
    let count = match ctx.new_inodes.checked_add(1) {
        Some(n) => n,
        None => {
            return Err(Error::invalid("EROFS inode offset overflow"));
        },
    };
    ctx.new_inodes = count;
    node.nid = nid;
    node.parent_nid = parent;
    Ok(())
}

/// Gives every new file of the trees a number, an inode and content.
fn overlay_new_files<S: ByteSource>(
    source: &Source<S>,
    children: &mut Vec<Node>,
    parent: u64,
    ctx: &mut TailCtx,
) -> (r: Result<(), Error>)
    requires
        source.wf(),
    ensures
        match r {
            Ok(_) => all_settled(
                old(ctx)@,
                source.sb,
                source.reader.disk(),
                node_views(old(children)@),
                parent,
            ) == Ok::<(Seq<NodeView>, TailView), Fault>(
                (node_views(final(children)@), final(ctx)@),
            ),
            Err(e) => all_settled(
                old(ctx)@,
                source.sb,
                source.reader.disk(),
                node_views(old(children)@),
                parent,
            ) == Err::<(Seq<NodeView>, TailView), Fault>(e@) || (source.reader.faulty() && e is Io),
        },
    decreases old(children)@,
{
    let ghost sb = source.sb;
    let ghost d = source.reader.disk();
    let ghost c0 = ctx@;
    let ghost first = children@;
    let ghost all = node_views(first);
    let n = children.len();
    let mut i: usize = 0;
    assert(all.take(0) =~= Seq::empty());
    assert(node_views(children@).take(0) =~= Seq::empty());
    while i < n
        invariant
            source.wf(),
            sb == source.sb,
            d == source.reader.disk(),
            i <= n == first.len() == children@.len(),
            first == old(children)@,
            all == node_views(first),
            c0 == old(ctx)@,
            forall|k: int| i <= k < n ==> children@[k] == first[k],
            all_settled(c0, sb, d, all.take(i as int), parent) == Ok::<
                (Seq<NodeView>, TailView),
                Fault,
            >((node_views(children@).take(i as int), ctx@)),
        decreases n - i,
    {
        let ghost part = all.take(i + 1);
        let ghost before = node_views(children@);
        proof {
            assert(part.subrange(0, part.len() - 1) =~= all.take(i as int));
            assert(part[part.len() - 1] == first[i as int]@);
        }
        match settle_child(source, &mut children[i], parent, ctx) {
            Ok(_) => {},
            Err(e) => {
                proof {
                    if !(source.reader.faulty() && e is Io) {
                        settling_fails_early(c0, sb, d, all, parent, i + 1);
                    }
                }
                return Err(e);
            },
        }
        let ghost m = children@[i as int];
        assert(m.children == first[i as int].children);
        let nid = children[i].nid;
        match overlay_new_files(source, &mut children[i].children, nid, ctx) {
            Ok(_) => {},
            Err(e) => {
                proof {
                    if !(source.reader.faulty() && e is Io) {
                        settling_fails_early(c0, sb, d, all, parent, i + 1);
                    }
                }
                return Err(e);
            },
        }
        proof {
            let x = children@[i as int];
            assert(x == (Node { children: x.children, ..m }));
            assert(x@ =~= NodeView { children: node_views(x.children@), ..m@ });
            assert(node_views(children@).take(i + 1) =~= before.take(i as int).push(x@));
        }
        i += 1;
    }
    proof {
        assert(all.take(i as int) =~= all);
        assert(node_views(children@).take(i as int) =~= node_views(children@));
    }
    Ok(())
}

// ---------------------------------------------------------------------
// Existing nodes
// ---------------------------------------------------------------------
/// What is done to the existing nodes, one walk after the other.
#[derive(Clone, Copy)]
pub enum Walk {
    /// Replaced content.
    Content,
    /// Directories whose membership changed.
    Directories,
    /// Metadata of inodes that were not written whole.
    Owners,
}

/// The tail after one node of a walk.
pub open spec fn walk_step(
    walk: Walk,
    c: TailView,
    sb: Superblock,
    d: Seq<u8>,
    before: Seq<DirNamesView>,
    n: NodeView,
) -> Result<TailView, Fault> {
    match walk {
        Walk::Content => content_step(c, sb, d, n),
        Walk::Directories => directory_step(c, sb, d, before, n),
        Walk::Owners => owner_step(c, sb, d, n),
    }
}

/// The content of a node that was replaced goes where [`placed_content`]
/// says, and its inode points there. Directories need a rebuild.
pub open spec fn content_step(c: TailView, sb: Superblock, d: Seq<u8>, n: NodeView) -> Result<
    TailView,
    Fault,
> {
    if n.nid == 0 || !n.content_changed || c.rewritten.contains(n.nid) {
        Ok(c)
    } else if n.is_dir() {
        fallback()
    } else {
        match placed_content(c, sb, d, n) {
            Err(e) => Err(e),
            Ok((c1, raw, size)) => with_repatch(c1, sb, d, n, size, raw),
        }
    }
}

/// A directory whose names changed is written behind the end. One that was
/// not there before, and one that does not fit into blocks, need a rebuild.
pub open spec fn directory_step(
    c: TailView,
    sb: Superblock,
    d: Seq<u8>,
    before: Seq<DirNamesView>,
    n: NodeView,
) -> Result<TailView, Fault> {
    if !n.is_dir() || n.nid == 0 {
        Ok(c)
    } else {
        match names_before(before, n.nid) {
            None => fallback(),
            Some(names) => if names == sorted_texts(names_of(n.children)) {
                Ok(c)
            } else {
                let data = directory_content(n, sb.block_size as int);
                if data.len() == 0 {
                    fallback()
                } else {
                    match appended_content(c, sb, data) {
                        Err(e) => Err(e),
                        Ok((c1, raw, size)) => with_repatch(c1, sb, d, n, size, raw),
                    }
                }
            },
        }
    }
}

/// The metadata of a changed node whose inode was not written whole.
pub open spec fn owner_step(c: TailView, sb: Superblock, d: Seq<u8>, n: NodeView) -> Result<
    TailView,
    Fault,
> {
    if n.nid == 0 || !n.modified || c.rewritten.contains(n.nid) {
        Ok(c)
    } else {
        match node_patches(sb, d, n) {
            Err(e) => Err(e),
            Ok(w) => Ok(TailView { patches: c.patches + w, ..c }),
        }
    }
}

/// The tail after a walk over the tree.
pub open spec fn walked(
    walk: Walk,
    c: TailView,
    sb: Superblock,
    d: Seq<u8>,
    before: Seq<DirNamesView>,
    n: NodeView,
) -> Result<TailView, Fault>
    decreases n,
{
    match walk_step(walk, c, sb, d, before, n) {
        Err(e) => Err(e),
        Ok(c1) => all_walked(walk, c1, sb, d, before, n.children),
    }
}

/// The tail after a walk over the trees.
pub open spec fn all_walked(
    walk: Walk,
    c: TailView,
    sb: Superblock,
    d: Seq<u8>,
    before: Seq<DirNamesView>,
    s: Seq<NodeView>,
) -> Result<TailView, Fault>
    decreases s,
{
    if s.len() == 0 {
        Ok(c)
    } else {
        match all_walked(walk, c, sb, d, before, s.subrange(0, s.len() - 1)) {
            Err(e) => Err(e),
            Ok(c1) => walked(walk, c1, sb, d, before, s[s.len() - 1]),
        }
    }
}

proof fn walking_fails_early(
    walk: Walk,
    c: TailView,
    sb: Superblock,
    d: Seq<u8>,
    before: Seq<DirNamesView>,
    s: Seq<NodeView>,
    i: int,
)
    requires
        0 <= i <= s.len(),
        all_walked(walk, c, sb, d, before, s.take(i)) is Err,
    ensures
        all_walked(walk, c, sb, d, before, s) == all_walked(walk, c, sb, d, before, s.take(i)),
    decreases s.len(),
{
    if i == s.len() {
        assert(s.take(i) =~= s);
    } else {
        let t = s.subrange(0, s.len() - 1);
        assert(t.take(i) =~= s.take(i));
        walking_fails_early(walk, c, sb, d, before, t, i);
    }
}

/// A step failed as it should, or the storage did.
pub open spec fn step_result(
    faulty: bool,
    r: Result<(), Error>,
    after: TailView,
    expected: Result<TailView, Fault>,
) -> bool {
    match r {
        Ok(_) => expected == Ok::<TailView, Fault>(after),
        Err(e) => expected == Err::<TailView, Fault>(e@) || (faulty && e is Io),
    }
}

fn overlay_replaced<S: ByteSource>(source: &Source<S>, node: &Node, ctx: &mut TailCtx) -> (r: Result<
    (),
    Error,
>)
    requires
        source.wf(),
    ensures
        step_result(
            source.reader.faulty(),
            r,
            final(ctx)@,
            content_step(old(ctx)@, source.sb, source.reader.disk(), node@),
        ),
{
    if node.nid == 0 || !node.content_changed || ctx.is_rewritten(node.nid) {
        return Ok(());
    }
    if node.is_dir() {
        return Err(overlay_fallback());
    }
    let (raw, size) = place_content(ctx, source, node)?;
    ctx.repatch_inode(source, node, size, raw)
}

fn overlay_dirs<S: ByteSource>(
    source: &Source<S>,
    node: &Node,
    ctx: &mut TailCtx,
    before: &Vec<DirNames>,
) -> (r: Result<(), Error>)
    requires
        source.wf(),
    ensures
        step_result(
            source.reader.faulty(),
            r,
            final(ctx)@,
            directory_step(
                old(ctx)@,
                source.sb,
                source.reader.disk(),
                dir_views(before@),
                node@,
            ),
        ),
{
    if !node.is_dir() || node.nid == 0 {
        return Ok(());
    }
    let names = child_names(node);
    match find_names(before, node.nid) {
        None => Err(overlay_fallback()),
        Some(old_names) => {
            if same_strings(old_names, &names) {
                return Ok(());
            }
            let data = directory_bytes(node, source.sb.block_size as usize);
            if data.len() == 0 {
                return Err(overlay_fallback());
            }
            let (raw, size) = append_content(ctx, &source.sb, &data)?;
            ctx.repatch_inode(source, node, size, raw)
        },
    }
}

fn overlay_meta<S: ByteSource>(source: &Source<S>, node: &Node, ctx: &mut TailCtx) -> (r: Result<
    (),
    Error,
>)
    requires
        source.wf(),
    ensures
        step_result(
            source.reader.faulty(),
            r,
            final(ctx)@,
            owner_step(old(ctx)@, source.sb, source.reader.disk(), node@),
        ),
{
    if node.nid == 0 || !node.modified || ctx.is_rewritten(node.nid) {
        return Ok(());
    }
    patch_node(source, node, &mut ctx.patches)
}

fn overlay_step<S: ByteSource>(
    walk: Walk,
    source: &Source<S>,
    node: &Node,
    ctx: &mut TailCtx,
    before: &Vec<DirNames>,
) -> (r: Result<(), Error>)
    requires
        source.wf(),
    ensures
        step_result(
            source.reader.faulty(),
            r,
            final(ctx)@,
            walk_step(
                walk,
                old(ctx)@,
                source.sb,
                source.reader.disk(),
                dir_views(before@),
                node@,
            ),
        ),
{
    match walk {
        Walk::Content => overlay_replaced(source, node, ctx),
        Walk::Directories => overlay_dirs(source, node, ctx, before),
        Walk::Owners => overlay_meta(source, node, ctx),
    }
}

fn overlay_walk<S: ByteSource>(
    walk: Walk,
    source: &Source<S>,
    node: &Node,
    ctx: &mut TailCtx,
    before: &Vec<DirNames>,
) -> (r: Result<(), Error>)
    requires
        source.wf(),
    ensures
        step_result(
            source.reader.faulty(),
            r,
            final(ctx)@,
            walked(
                walk,
                old(ctx)@,
                source.sb,
                source.reader.disk(),
                dir_views(before@),
                node@,
            ),
        ),
    decreases node,
{
    let ghost sb = source.sb;
    let ghost d = source.reader.disk();
    let ghost b = dir_views(before@);
    let ghost c0 = ctx@;
    match overlay_step(walk, source, node, ctx, before) {
        Ok(_) => {},
        Err(e) => {
            return Err(e);
        },
    }
    let ghost c1 = ctx@;
    let ghost v = node_views(node.children@);
    let mut i: usize = 0;
    assert(v.take(0) =~= Seq::empty());
    while i < node.children.len()
        invariant
            source.wf(),
            sb == source.sb,
            d == source.reader.disk(),
            b == dir_views(before@),
            i <= node.children@.len(),
            v == node_views(node.children@),
            node@.children == v,
            walk_step(walk, c0, sb, d, b, node@) == Ok::<TailView, Fault>(c1),
            all_walked(walk, c1, sb, d, b, v.take(i as int)) == Ok::<TailView, Fault>(ctx@),
            walked(walk, c0, sb, d, b, node@) == all_walked(walk, c1, sb, d, b, v),
            c0 == old(ctx)@,
        decreases node.children.len() - i,
    {
        proof {
            node_views_take(node.children@, i as int);
        }
        match overlay_walk(walk, source, &node.children[i], ctx, before) {
            Ok(_) => {},
            Err(e) => {
                proof {
                    if !(source.reader.faulty() && e is Io) {
                        walking_fails_early(walk, c1, sb, d, b, v, i + 1);
                    }
                }
                return Err(e);
            },
        }
        i += 1;
    }
    assert(v.take(i as int) =~= v);
    Ok(())
}

// ---------------------------------------------------------------------
// The whole image
// ---------------------------------------------------------------------
/// The patches of the superblock: without a checksum, with the number of
/// inodes and of blocks.
pub open spec fn super_patches(sb: Superblock, inodes: u64, blocks: u32) -> Seq<PatchView> {
    seq![
        PatchView { at: 1032, data: bytes32(sb.feature_compat & !1u32) },
        PatchView { at: 1040, data: bytes64(inodes) },
        PatchView { at: 1060, data: bytes32(blocks) },
        PatchView { at: 1028, data: zeros(4) },
    ]
}

/// Adds the patches of the superblock.
pub fn push_super_patches(patches: &mut Vec<Patch>, sb: &Superblock, inodes: u64, blocks: u32)
    ensures
        patch_views(final(patches)@) == patch_views(old(patches)@) + super_patches(
            *sb,
            inodes,
            blocks,
        ),
{
    let ghost before = patch_views(patches@);
    push_patch(patches, 1032, word32(sb.feature_compat & !1u32));
    let mut count: Vec<u8> = Vec::new();
    push64(&mut count, inodes);
    assert(count@ =~= bytes64(inodes));
    push_patch(patches, 1040, count);
    push_patch(patches, 1060, word32(blocks));
    push_patch(patches, 1028, zeroed(4));
    assert(patch_views(patches@) =~= before + super_patches(*sb, inodes, blocks));
}

/// The tree in the order in which it is written, with the numbers of the
/// parents.
pub open spec fn arranged_tree(root: NodeView) -> NodeView {
    with_parents(sorted_tree(root), root.nid)
}

/// A tail with nothing in it.
pub open spec fn empty_tail(cursor: int) -> TailView {
    TailView {
        patches: Seq::empty(),
        tail: Seq::empty(),
        cursor,
        new_inodes: 0,
        rewritten: Seq::empty(),
    }
}

/// The tail that an edit makes.
pub open spec fn overlay_tail(
    sb: Superblock,
    d: Seq<u8>,
    root: NodeView,
    before: Seq<DirNamesView>,
    start: int,
) -> Result<TailView, Fault> {
    match all_settled(empty_tail(start), sb, d, root.children, root.nid) {
        Err(e) => Err(e),
        Ok((children, c1)) => {
            let n = NodeView { children, ..root };
            match walked(Walk::Content, c1, sb, d, before, n) {
                Err(e) => Err(e),
                Ok(c2) => match walked(Walk::Directories, c2, sb, d, before, n) {
                    Err(e) => Err(e),
                    Ok(c3) => walked(Walk::Owners, c3, sb, d, before, n),
                },
            }
        },
    }
}

/// The patches that an edit makes of an image, and the size of the result.
pub open spec fn overlay_plan(
    sb: Superblock,
    d: Seq<u8>,
    root: NodeView,
    before: Seq<DirNamesView>,
) -> Result<(Seq<PatchView>, int), Fault> {
    let start = ceil_div(d.len() as int, sb.block_size as int) * sb.block_size;
    if has_explicit_context(arranged_tree(root)) {
        fallback()
    } else if start > u64::MAX {
        fail("EROFS physical block overflow"@)
    } else {
        match overlay_tail(sb, d, arranged_tree(root), before, start) {
            Err(e) => Err(e),
            Ok(c) => if sb.inodes + c.new_inodes > u64::MAX {
                fail("EROFS inode offset overflow"@)
            } else {
                Ok(
                    (
                        c.patches + super_patches(
                            sb,
                            (sb.inodes + c.new_inodes) as u64,
                            (c.cursor / sb.block_size as int) as u32,
                        ) + seq![PatchView { at: start, data: c.tail }],
                        c.cursor,
                    ),
                )
            },
        }
    }
}

/// The image after an edit, in its container.
pub open spec fn overlaid_image(
    sb: Superblock,
    d: Seq<u8>,
    root: NodeView,
    before: Seq<DirNamesView>,
    sparse: bool,
) -> Result<Seq<u8>, Fault> {
    match overlay_plan(sb, d, root, before) {
        Err(e) => Err(e),
        Ok((patches, size)) => packaged(patched(d, patches, size), sb.block_size as int, sparse),
    }
}

/// Plans an edit that keeps every untouched byte where it is.
pub fn plan_overlay<S: ByteSource>(
    source: &Source<S>,
    root: &mut Node,
    before: &Vec<DirNames>,
) -> (r: Result<(Vec<Patch>, u64), Error>)
    requires
        source.wf(),
    ensures
        match r {
            Ok((p, n)) => overlay_plan(
                source.sb,
                source.reader.disk(),
                old(root)@,
                dir_views(before@),
            ) == Ok::<(Seq<PatchView>, int), Fault>((patch_views(p@), n as int)),
            Err(e) => overlay_plan(
                source.sb,
                source.reader.disk(),
                old(root)@,
                dir_views(before@),
            ) == Err::<(Seq<PatchView>, int), Fault>(e@) || (source.reader.faulty() && e is Io),
        },
{
    let ghost sb = source.sb;
    let ghost d = source.reader.disk();
    let ghost b = dir_views(before@);
    sort_tree(root);
    let nid = root.nid;
    set_parents(root, nid);
    let ghost arranged = root@;
    assert(arranged == arranged_tree(old(root)@));
    if root_has_explicit_context(root) {
        return Err(overlay_fallback());
    }
    let block_size = source.sb.block_size;
    let size = source.reader.size();
    proof {
        ceil_div_covers(size as int, block_size as int);
    }
    let start = match div_up(size, block_size).checked_mul(block_size) {
        Some(n) => n,
        None => {
            return Err(Error::invalid("EROFS physical block overflow"));
        },
    };
    let mut ctx = TailCtx {
        patches: Vec::new(),
        tail: Vec::new(),
        cursor: start,
        new_inodes: 0,
        rewritten: Vec::new(),
    };
    assert(ctx@ =~= empty_tail(start as int));
    overlay_new_files(source, &mut root.children, nid, &mut ctx)?;
    assert(root@ =~= NodeView { children: node_views(root.children@), ..arranged });
    overlay_walk(Walk::Content, source, root, &mut ctx, before)?;
    overlay_walk(Walk::Directories, source, root, &mut ctx, before)?;
    overlay_walk(Walk::Owners, source, root, &mut ctx, before)?;
    assert(overlay_tail(sb, d, arranged, b, start as int) == Ok::<TailView, Fault>(ctx@));
    let inodes = match source.sb.inodes.checked_add(ctx.new_inodes) {
        Some(n) => n,
        None => {
            return Err(Error::invalid("EROFS inode offset overflow"));
        },
    };
    let blocks = (ctx.cursor / block_size) as u32;
    let TailCtx { mut patches, tail, cursor, .. } = ctx;
    push_super_patches(&mut patches, &source.sb, inodes, blocks);
    let ghost w = patch_views(patches@);
    let ghost t = tail@;
    push_patch(&mut patches, start, tail);
    assert(patch_views(patches@) =~= w + seq![PatchView { at: start as int, data: t }]);
    Ok((patches, cursor))
}

/// Writes the image out after an edit. Every byte that the edit does not
/// touch stays where it is.
pub fn overlay_rebuild<S: ByteSource, O: ByteSink>(
    source: &Source<S>,
    root: &mut Node,
    sparse: bool,
    before: &Vec<DirNames>,
    out: &mut O,
) -> (r: Result<(), Error>)
    requires
        source.wf(),
    ensures
        final(out).full() == old(out).full(),
        match r {
            Ok(_) => overlaid_image(
                source.sb,
                source.reader.disk(),
                old(root)@,
                dir_views(before@),
                sparse,
            ) matches Ok(data) && final(out).written() == old(out).written() + data,
            Err(e) => overlaid_image(
                source.sb,
                source.reader.disk(),
                old(root)@,
                dir_views(before@),
                sparse,
            ) == Err::<Seq<u8>, Fault>(e@) || (e is Io && (source.reader.faulty()
                || old(out).full())),
        },
{
    let (patches, size) = plan_overlay(source, root, before)?;
    let image = Patched::new(&source.reader, patches, size);
    write_image(&image, source.sb.block_size as usize, sparse, out)
}

} // verus!
