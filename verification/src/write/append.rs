//! Adding or replacing one file of an EROFS image behind its end.
use super::layout::{directory_bytes, directory_content};
use super::node::{
    node_views, node_views_take, node_views_update, set_parents, sort_tree, Node, NodeView,
};
use super::overlay::{
    appended, arranged_tree, empty_tail, fresh_number, has_explicit_context, push_super_patches,
    root_has_explicit_context, super_patches, with_fresh, with_repatch, TailCtx, TailView,
};
use super::patch::{
    packaged, patch_views, patched, push_patch, write_image, Patch, PatchView, Patched,
};
use super::source::Source;
use crate::buf::{zeroed, zeros};
use crate::error::{fail, Error, Fault};
use crate::fs::erofs::Superblock;
use crate::image::{ByteSink, ByteSource};
use crate::math::{ceil_div, ceil_div_covers, div_up};
use crate::text::same;
use vstd::prelude::*;

verus! {

// ---------------------------------------------------------------------
// Looking up
// ---------------------------------------------------------------------
/// The first node of the tree with the number.
pub open spec fn node_numbered(n: NodeView, nid: u64) -> Option<NodeView>
    decreases n,
{
    if n.nid == nid {
        Some(n)
    } else {
        any_numbered(n.children, nid)
    }
}

/// The first node of the trees with the number.
pub open spec fn any_numbered(s: Seq<NodeView>, nid: u64) -> Option<NodeView>
    decreases s,
{
    if s.len() == 0 {
        None
    } else {
        match any_numbered(s.subrange(0, s.len() - 1), nid) {
            Some(x) => Some(x),
            None => node_numbered(s[s.len() - 1], nid),
        }
    }
}

proof fn numbered_early(s: Seq<NodeView>, nid: u64, i: int)
    requires
        0 <= i <= s.len(),
        any_numbered(s.take(i), nid) is Some,
    ensures
        any_numbered(s, nid) == any_numbered(s.take(i), nid),
    decreases s.len(),
{
    if i == s.len() {
        assert(s.take(i) =~= s);
    } else {
        let t = s.subrange(0, s.len() - 1);
        assert(t.take(i) =~= s.take(i));
        numbered_early(t, nid, i);
    }
}

/// The first node of the tree with the number.
pub fn find_node(node: &Node, nid: u64) -> (r: Option<&Node>)
    ensures
        match r {
            Some(x) => node_numbered(node@, nid) == Some(x@),
            None => node_numbered(node@, nid) is None,
        },
    decreases node,
{
    if node.nid == nid {
        return Some(node);
    }
    let ghost v = node_views(node.children@);
    assert(v.take(0) =~= Seq::empty());
    let mut i: usize = 0;
    while i < node.children.len()
        invariant
            i <= node.children@.len(),
            v == node_views(node.children@),
            node@.children == v,
            node.nid != nid,
            any_numbered(v.take(i as int), nid) is None,
        decreases node.children.len() - i,
    {
        proof {
            node_views_take(node.children@, i as int);
        }
        match find_node(&node.children[i], nid) {
            Some(x) => {
                proof {
                    numbered_early(v, nid, i + 1);
                }
                return Some(x);
            },
            None => {},
        }
        i += 1;
    }
    assert(v.take(i as int) =~= v);
    None
}

/// The first node of the tree that was changed.
pub open spec fn first_modified(n: NodeView) -> Option<NodeView>
    decreases n,
{
    if n.modified {
        Some(n)
    } else {
        any_modified(n.children)
    }
}

/// The first node of the trees that was changed.
pub open spec fn any_modified(s: Seq<NodeView>) -> Option<NodeView>
    decreases s,
{
    if s.len() == 0 {
        None
    } else {
        match any_modified(s.subrange(0, s.len() - 1)) {
            Some(x) => Some(x),
            None => first_modified(s[s.len() - 1]),
        }
    }
}

proof fn modified_early(s: Seq<NodeView>, i: int)
    requires
        0 <= i <= s.len(),
        any_modified(s.take(i)) is Some,
    ensures
        any_modified(s) == any_modified(s.take(i)),
    decreases s.len(),
{
    if i == s.len() {
        assert(s.take(i) =~= s);
    } else {
        let t = s.subrange(0, s.len() - 1);
        assert(t.take(i) =~= s.take(i));
        modified_early(t, i);
    }
}

/// The first node of the tree that was changed.
pub fn find_modified(node: &Node) -> (r: Option<&Node>)
    ensures
        match r {
            Some(x) => first_modified(node@) == Some(x@),
            None => first_modified(node@) is None,
        },
    decreases node,
{
    if node.modified {
        return Some(node);
    }
    let ghost v = node_views(node.children@);
    assert(v.take(0) =~= Seq::empty());
    let mut i: usize = 0;
    while i < node.children.len()
        invariant
            i <= node.children@.len(),
            v == node_views(node.children@),
            node@.children == v,
            !node.modified,
            any_modified(v.take(i as int)) is None,
        decreases node.children.len() - i,
    {
        proof {
            node_views_take(node.children@, i as int);
        }
        match find_modified(&node.children[i]) {
            Some(x) => {
                proof {
                    modified_early(v, i + 1);
                }
                return Some(x);
            },
            None => {},
        }
        i += 1;
    }
    assert(v.take(i as int) =~= v);
    None
}

/// The tree with a number for its first node that has none, and that node.
pub open spec fn first_new(n: NodeView, nid: u64) -> Option<(NodeView, NodeView)>
    decreases n,
{
    if n.nid == 0 && n.name != Seq::<char>::empty() {
        let x = NodeView { nid, ..n };
        Some((x, x))
    } else {
        match any_new(n.children, nid) {
            None => None,
            Some((children, x)) => Some((NodeView { children, ..n }, x)),
        }
    }
}

/// The trees with a number for their first node that has none, and that
/// node.
pub open spec fn any_new(s: Seq<NodeView>, nid: u64) -> Option<(Seq<NodeView>, NodeView)>
    decreases s,
{
    if s.len() == 0 {
        None
    } else {
        let front = s.subrange(0, s.len() - 1);
        match any_new(front, nid) {
            Some((t, x)) => Some((t.push(s[s.len() - 1]), x)),
            None => match first_new(s[s.len() - 1], nid) {
                None => None,
                Some((m, x)) => Some((front.push(m), x)),
            },
        }
    }
}

proof fn new_early(s: Seq<NodeView>, nid: u64, i: int)
    requires
        0 <= i < s.len(),
        any_new(s.take(i), nid) is None,
        first_new(s[i], nid) is Some,
    ensures
        any_new(s, nid) == Some(
            (s.update(i, first_new(s[i], nid)->Some_0.0), first_new(s[i], nid)->Some_0.1),
        ),
    decreases s.len(),
{
    let (m, x) = first_new(s[i], nid)->Some_0;
    let front = s.subrange(0, s.len() - 1);
    if i == s.len() - 1 {
        assert(front =~= s.take(i));
        assert(front.push(m) =~= s.update(i, m));
    } else {
        assert(front.take(i) =~= s.take(i));
        new_early(front, nid, i);
        assert(front.update(i, m).push(s[s.len() - 1]) =~= s.update(i, m));
    }
}

/// Gives the first node of the tree that has no number the number, and
/// returns a copy of it.
pub fn find_new_node(node: &mut Node, nid: u64) -> (r: Option<Node>)
    ensures
        match first_new(old(node)@, nid) {
            Some((t, x)) => r is Some && r->Some_0@ == x && final(node)@ == t,
            None => r is None && final(node)@ == old(node)@,
        },
    decreases *old(node),
{
    if node.nid == 0 {
        proof {
            reveal_strlit("");
            assert(""@ =~= Seq::<char>::empty());
        }
        if !same(node.name.as_str(), "") {
            node.nid = nid;
            return Some(node.duplicate());
        }
    }
    let ghost first = node.children@;
    let ghost v = node_views(first);
    assert(v.take(0) =~= Seq::empty());
    let n = node.children.len();
    let mut i: usize = 0;
    while i < n
        invariant
            i <= n == first.len(),
            first == old(node).children@,
            v == node_views(first),
            node_views(node.children@) == v,
            node.children@.len() == n,
            forall|k: int| i <= k < n ==> node.children@[k] == first[k],
            *node == (Node { children: node.children, ..*old(node) }),
            !(old(node).nid == 0 && old(node)@.name != Seq::<char>::empty()),
            any_new(v.take(i as int), nid) is None,
        decreases n - i,
    {
        let ghost before = node.children@;
        proof {
            node_views_take(first, i as int);
        }
        let found = find_new_node(&mut node.children[i], nid);
        proof {
            node_views_update(before, i as int, node.children@[i as int]);
            assert(node.children@ =~= before.update(i as int, node.children@[i as int]));
            assert(v[i as int] == first[i as int]@);
            assert(old(node)@.children == v);
        }
        match found {
            Some(x) => {
                proof {
                    new_early(v, nid, i as int);
                }
                return Some(x);
            },
            None => {
                proof {
                    assert(v.update(i as int, v[i as int]) =~= v);
                }
            },
        }
        i += 1;
    }
    proof {
        assert(v.take(i as int) =~= v);
        assert(old(node)@.children == v);
    }
    None
}

// ---------------------------------------------------------------------
// The plan
// ---------------------------------------------------------------------
/// The tail with content appended, and where it is: nothing is appended for
/// an empty file, but the place is taken down.
pub open spec fn with_content(c: TailView, sb: Superblock, data: Seq<u8>) -> Result<
    (TailView, u32),
    Fault,
> {
    match appended(c, sb.block_size as int, data) {
        Err(e) => Err(e),
        Ok((t, at)) => Ok((t, (at / sb.block_size as int) as u32)),
    }
}

/// The patches that write a directory over its old content, with zeros
/// behind it.
pub open spec fn dir_in_place(parent: NodeView, data: Seq<u8>, block_size: int) -> Seq<PatchView> {
    let at = parent.raw_block * block_size;
    let here = seq![PatchView { at, data }];
    if data.len() < parent.data().len() {
        here.push(
            PatchView { at: at + data.len(), data: zeros(parent.data().len() - data.len()) },
        )
    } else {
        here
    }
}

/// The tail with the directory that has a new entry: in its place where it
/// is plain, or else behind the end.
pub open spec fn with_directory(c: TailView, sb: Superblock, d: Seq<u8>, parent: NodeView) -> Result<
    TailView,
    Fault,
> {
    let data = directory_content(parent, sb.block_size as int);
    if parent.layout == 0 {
        if data.len() > parent.data().len() {
            fail("destination directory has no free space"@)
        } else if parent.raw_block * sb.block_size + parent.data().len() > u64::MAX {
            fail("EROFS physical block overflow"@)
        } else {
            Ok(
                TailView {
                    patches: c.patches + dir_in_place(parent, data, sb.block_size as int),
                    ..c
                },
            )
        }
    } else {
        match with_content(c, sb, data) {
            Err(e) => Err(e),
            Ok((c1, raw)) => with_repatch(c1, sb, d, parent, data.len() as u64, raw),
        }
    }
}

/// The tail with a new file: its inode, and its content behind that.
pub open spec fn with_new_file(c: TailView, sb: Superblock, n: NodeView) -> Result<
    TailView,
    Fault,
> {
    let raw = (c.cursor / sb.block_size as int + 1) as u32;
    match with_fresh(c, sb, n, n.data().len() as u32, raw, Seq::empty()) {
        Err(e) => Err(e),
        Ok((c1, _)) => match with_content(c1, sb, n.data()) {
            Err(e) => Err(e),
            Ok((c2, _)) => Ok(c2),
        },
    }
}

/// The tail with the content of a file replaced.
pub open spec fn with_new_content(c: TailView, sb: Superblock, d: Seq<u8>, n: NodeView) -> Result<
    TailView,
    Fault,
> {
    match with_content(c, sb, n.data()) {
        Err(e) => Err(e),
        Ok((c1, raw)) => with_repatch(c1, sb, d, n, n.data().len() as u64, raw),
    }
}

/// The tail that adding or replacing one file makes, and the number of
/// inodes.
pub open spec fn append_tail(sb: Superblock, d: Seq<u8>, root: NodeView, start: int) -> Result<
    (TailView, int),
    Fault,
> {
    let c = empty_tail(start);
    match first_new(root, fresh_number(sb, start)) {
        Some((t, n)) => match node_numbered(t, n.parent_nid) {
            None => fail("parent inode was not found"@),
            Some(parent) => match with_new_file(c, sb, n) {
                Err(e) => Err(e),
                Ok(c1) => match with_directory(c1, sb, d, parent) {
                    Err(e) => Err(e),
                    Ok(c2) => Ok((c2, sb.inodes + 1)),
                },
            },
        },
        None => match first_modified(root) {
            None => fail("no add or replacement action found"@),
            Some(n) => match with_new_content(c, sb, d, n) {
                Err(e) => Err(e),
                Ok(c1) => Ok((c1, sb.inodes as int)),
            },
        },
    }
}

/// The patches that adding or replacing one file makes, and the size of the
/// result.
pub open spec fn append_plan(sb: Superblock, d: Seq<u8>, root: NodeView) -> Result<
    (Seq<PatchView>, int),
    Fault,
> {
    let start = ceil_div(d.len() as int, sb.block_size as int) * sb.block_size;
    if has_explicit_context(arranged_tree(root)) {
        fail("explicit SELinux context needs a full rebuild"@)
    } else if start > u64::MAX {
        fail("EROFS physical block overflow"@)
    } else {
        match append_tail(sb, d, arranged_tree(root), start) {
            Err(e) => Err(e),
            Ok((c, inodes)) => if inodes > u64::MAX {
                fail("EROFS inode offset overflow"@)
            } else {
                Ok(
                    (
                        c.patches + super_patches(
                            sb,
                            inodes as u64,
                            (c.cursor / sb.block_size as int) as u32,
                        ) + seq![PatchView { at: start, data: c.tail }],
                        c.cursor,
                    ),
                )
            },
        }
    }
}

/// The image with one file added or replaced, in its container.
pub open spec fn appended_image(sb: Superblock, d: Seq<u8>, root: NodeView, sparse: bool) -> Result<
    Seq<u8>,
    Fault,
> {
    match append_plan(sb, d, root) {
        Err(e) => Err(e),
        Ok((patches, size)) => packaged(patched(d, patches, size), sb.block_size as int, sparse),
    }
}

fn put_content(ctx: &mut TailCtx, sb: &Superblock, data: &[u8]) -> (r: Result<u32, Error>)
    requires
        0 < sb.block_size <= 65536,
    ensures
        match with_content(old(ctx)@, *sb, data@) {
            Ok((c, raw)) => r is Ok && r->Ok_0 == raw && final(ctx)@ == c,
            Err(e) => r is Err && r->Err_0@ == e,
        },
{
    let at = ctx.append(sb.block_size, data)?;
    Ok((at / sb.block_size) as u32)
}

fn put_directory<S: ByteSource>(ctx: &mut TailCtx, source: &Source<S>, parent: &Node) -> (r: Result<
    (),
    Error,
>)
    requires
        source.wf(),
    ensures
        match r {
            Ok(_) => with_directory(
                old(ctx)@,
                source.sb,
                source.reader.disk(),
                parent@,
            ) == Ok::<TailView, Fault>(final(ctx)@),
            Err(e) => with_directory(
                old(ctx)@,
                source.sb,
                source.reader.disk(),
                parent@,
            ) == Err::<TailView, Fault>(e@) || (source.reader.faulty() && e is Io),
        },
{
    let block_size = source.sb.block_size;
    let data = directory_bytes(parent, block_size as usize);
    if parent.layout != 0 {
        let raw = put_content(ctx, &source.sb, &data)?;
        return ctx.repatch_inode(source, parent, data.len() as u64, raw);
    }
    put_in_place(ctx, &source.sb, parent, data)
}

fn put_in_place(ctx: &mut TailCtx, sb: &Superblock, parent: &Node, data: Vec<u8>) -> (r: Result<
    (),
    Error,
>)
    requires
        sb.block_size <= 65536,
        parent@.layout == 0,
        data@ == directory_content(parent@, sb.block_size as int),
    ensures
        forall|d: Seq<u8>| #[trigger]
            with_directory(old(ctx)@, *sb, d, parent@) == match r {
                Ok(_) => Ok::<TailView, Fault>(final(ctx)@),
                Err(e) => Err(e@),
            },
{
    let block_size = sb.block_size;
    let size = parent.data().len();
    let used = data.len();
    if used > size {
        return Err(Error::invalid("destination directory has no free space"));
    }
    let ghost before = patch_views(ctx.patches@);
    let ghost bytes = data@;
    assert(parent.raw_block * block_size <= 0xffff_ffff * 65536) by (nonlinear_arith)
        requires
            parent.raw_block <= 0xffff_ffff,
            block_size <= 65536,
    ;
    let at = parent.raw_block as u64 * block_size;
    if size as u64 > u64::MAX - at {
        return Err(Error::invalid("EROFS physical block overflow"));
    }
    push_patch(&mut ctx.patches, at, data);
    if used < size {
        push_patch(&mut ctx.patches, at + used as u64, zeroed(size - used));
    }
    assert(patch_views(ctx.patches@) =~= before + dir_in_place(
        parent@,
        bytes,
        block_size as int,
    ));
    Ok(())
}

fn put_new_file(ctx: &mut TailCtx, sb: &Superblock, node: &Node) -> (r: Result<(), Error>)
    requires
        sb.wf(),
        2 <= sb.block_size <= 65536,
    ensures
        match with_new_file(old(ctx)@, *sb, node@) {
            Ok(c) => r is Ok && final(ctx)@ == c,
            Err(e) => r is Err && r->Err_0@ == e,
        },
{
    let none: Vec<u8> = Vec::new();
    assert(none@ =~= Seq::empty());
    let size = node.data().len() as u32;
    assert(ctx.cursor / sb.block_size <= ctx.cursor / 2) by (nonlinear_arith)
        requires
            2 <= sb.block_size,
    ;
    let raw = (ctx.cursor / sb.block_size + 1) as u32;
    ctx.fresh_inode_patch(sb, node, size, raw, &none)?;
    put_content(ctx, sb, node.data())?;
    Ok(())
}

fn put_new_content<S: ByteSource>(ctx: &mut TailCtx, source: &Source<S>, node: &Node) -> (r: Result<
    (),
    Error,
>)
    requires
        source.wf(),
    ensures
        match r {
            Ok(_) => with_new_content(
                old(ctx)@,
                source.sb,
                source.reader.disk(),
                node@,
            ) == Ok::<TailView, Fault>(final(ctx)@),
            Err(e) => with_new_content(
                old(ctx)@,
                source.sb,
                source.reader.disk(),
                node@,
            ) == Err::<TailView, Fault>(e@) || (source.reader.faulty() && e is Io),
        },
{
    let raw = put_content(ctx, &source.sb, node.data())?;
    ctx.repatch_inode(source, node, node.data().len() as u64, raw)
}

fn append_file<S: ByteSource>(source: &Source<S>, root: &mut Node, ctx: &mut TailCtx) -> (r: Result<
    bool,
    Error,
>)
    requires
        source.wf(),
        old(ctx)@ == empty_tail(old(ctx)@.cursor),
    ensures
        match r {
            Ok(is_new) => append_tail(
                source.sb,
                source.reader.disk(),
                old(root)@,
                old(ctx)@.cursor,
            ) == Ok::<(TailView, int), Fault>(
                (
                    final(ctx)@,
                    if is_new {
                        source.sb.inodes + 1
                    } else {
                        source.sb.inodes as int
                    },
                ),
            ),
            Err(e) => append_tail(
                source.sb,
                source.reader.disk(),
                old(root)@,
                old(ctx)@.cursor,
            ) == Err::<(TailView, int), Fault>(e@) || (source.reader.faulty() && e is Io),
        },
{
    assert(source.sb.meta_blkaddr * source.sb.block_size <= 0xffff_ffff * 65536) by (nonlinear_arith)
        requires
            source.sb.meta_blkaddr <= 0xffff_ffff,
            source.sb.block_size <= 65536,
    ;
    let base = source.sb.meta_blkaddr * source.sb.block_size;
    let number = if ctx.cursor < base {
        0
    } else {
        (ctx.cursor - base) / 32
    };
    match find_new_node(root, number) {
        Some(added) => {
            match find_node(root, added.parent_nid) {
                None => {
                    return Err(Error::invalid("parent inode was not found"));
                },
                Some(parent) => {
                    put_new_file(ctx, &source.sb, &added)?;
                    put_directory(ctx, source, parent)?;
                },
            }
            Ok(true)
        },
        None => {
            match find_modified(root) {
                None => Err(Error::invalid("no add or replacement action found")),
                Some(node) => {
                    put_new_content(ctx, source, node)?;
                    Ok(false)
                },
            }
        },
    }
}

/// Plans adding or replacing one file.
pub fn plan_append<S: ByteSource>(source: &Source<S>, root: &mut Node) -> (r: Result<
    (Vec<Patch>, u64),
    Error,
>)
    requires
        source.wf(),
    ensures
        match r {
            Ok((p, n)) => append_plan(source.sb, source.reader.disk(), old(root)@) == Ok::<
                (Seq<PatchView>, int),
                Fault,
            >((patch_views(p@), n as int)),
            Err(e) => append_plan(source.sb, source.reader.disk(), old(root)@) == Err::<
                (Seq<PatchView>, int),
                Fault,
            >(e@) || (source.reader.faulty() && e is Io),
        },
{
    sort_tree(root);
    let nid = root.nid;
    set_parents(root, nid);
    assert(root@ == arranged_tree(old(root)@));
    if root_has_explicit_context(root) {
        return Err(Error::invalid("explicit SELinux context needs a full rebuild"));
    }
    let block_size = source.sb.block_size;
    let size = source.reader.size();
    proof {
        ceil_div_covers(size as int, block_size as int);
    }
    let start = match div_up(size, block_size).checked_mul(block_size) {
        Some(n) => n,
        None => {
            return Err(Error::invalid("EROFS physical block overflow"));
        },
    };
    let mut ctx = TailCtx {
        patches: Vec::new(),
        tail: Vec::new(),
        cursor: start,
        new_inodes: 0,
        rewritten: Vec::new(),
    };
    assert(ctx@ =~= empty_tail(start as int));
    let is_new = append_file(source, root, &mut ctx)?;
    let inodes = if is_new {
        match source.sb.inodes.checked_add(1) {
            Some(n) => n,
            None => {
                return Err(Error::invalid("EROFS inode offset overflow"));
            },
        }
    } else {
        source.sb.inodes
    };
    let blocks = (ctx.cursor / block_size) as u32;
    let TailCtx { mut patches, tail, cursor, .. } = ctx;
    push_super_patches(&mut patches, &source.sb, inodes, blocks);
    let ghost w = patch_views(patches@);
    let ghost t = tail@;
    push_patch(&mut patches, start, tail);
    assert(patch_views(patches@) =~= w + seq![PatchView { at: start as int, data: t }]);
    Ok((patches, cursor))
}

/// Writes the image out with one file added or replaced.
pub fn append_image<S: ByteSource, O: ByteSink>(
    source: &Source<S>,
    root: &mut Node,
    sparse: bool,
    out: &mut O,
) -> (r: Result<(), Error>)
    requires
        source.wf(),
    ensures
        final(out).full() == old(out).full(),
        match r {
            Ok(_) => appended_image(source.sb, source.reader.disk(), old(root)@, sparse) matches Ok(
                data,
            ) && final(out).written() == old(out).written() + data,
            Err(e) => appended_image(source.sb, source.reader.disk(), old(root)@, sparse) == Err::<
                Seq<u8>,
                Fault,
            >(e@) || (e is Io && (source.reader.faulty() || old(out).full())),
        },
{
    let (patches, size) = plan_append(source, root)?;
    let image = Patched::new(&source.reader, patches, size);
    write_image(&image, source.sb.block_size as usize, sparse, out)
}

} // verus!
