//! A fresh EROFS image: where everything goes, and what the metadata is.
use super::layout::{
    assign_nids_strided, countable, directory_bytes, directory_content, numbered,
};
use super::node::{
    collect_contexts, contexts_of, node_needs_xattr, nodes, preorder, ref_views, Node, NodeView,
};
use super::overlay::{body_length, build_inode_body, inode_body};
use super::patch::{patch_views, push_patch, Patch, PatchView};
use crate::buf::{
    bytes16, bytes32, bytes64, push16, push32, push64, push_bytes, zeroed, zeros,
};
use crate::error::{fail, Error, Fault};
use crate::fs::erofs::xattr::{area_bytes, area_of, pack_shared_table, table_of};
use crate::fs::erofs::MAGIC;
use crate::math::{ceil_div, ceil_div_covers, div_up};
use crate::text::{same, texts};
use vstd::prelude::*;

verus! {

// ---------------------------------------------------------------------
// The plan
// ---------------------------------------------------------------------
/// The size of the content of a node.
pub open spec fn node_size(n: NodeView, block_size: int) -> int {
    if n.is_dir() {
        directory_content(n, block_size).len() as int
    } else {
        n.data_size as int
    }
}

/// Whether the content of a node is stored as it is.
pub open spec fn is_plain_file(n: NodeView) -> bool {
    !n.is_dir() && n.erofs_compact_clusters == 0
}

/// The blocks that the directories take.
pub open spec fn dir_room(s: Seq<NodeView>, block_size: int) -> int
    decreases s.len(),
{
    if s.len() == 0 {
        0
    } else {
        dir_room(s.drop_last(), block_size) + if s.last().is_dir() {
            ceil_div(node_size(s.last(), block_size), block_size)
        } else {
            0
        }
    }
}

/// The blocks that the files take that are stored as they are.
pub open spec fn file_room(s: Seq<NodeView>, block_size: int) -> int
    decreases s.len(),
{
    if s.len() == 0 {
        0
    } else {
        file_room(s.drop_last(), block_size) + if is_plain_file(s.last()) {
            ceil_div(node_size(s.last(), block_size), block_size)
        } else {
            0
        }
    }
}

/// Every directory fits into blocks.
pub open spec fn dirs_fit(s: Seq<NodeView>, block_size: int) -> bool {
    forall|k: int|
        0 <= k < s.len() ==> (#[trigger] s[k]).is_dir() ==> directory_content(
            s[k],
            block_size,
        ).len() > 0
}

/// Every size fits into the size field of an inode.
pub open spec fn sizes_fit(s: Seq<NodeView>, block_size: int) -> bool {
    forall|k: int| 0 <= k < s.len() ==> node_size(#[trigger] s[k], block_size) <= u32::MAX
}

/// Where everything of a fresh image goes.
pub struct Fresh {
    pub block_size: int,
    pub meta_block: int,
    /// The nodes with their numbers, each in front of what is below it.
    pub list: Seq<NodeView>,
    pub contexts: Seq<Seq<char>>,
    /// The table of SELinux contexts and its first block.
    pub table: Seq<u8>,
    pub table_block: int,
    /// The first block of directories, that of files, and the one behind
    /// them.
    pub dir_block: int,
    pub file_block: int,
    pub end_block: int,
}

/// Where everything goes, for a tree with the numbers up to `next`.
pub open spec fn placed_tree(tree: NodeView, next: int, block_size: int, meta_block: int) -> Fresh {
    let list = preorder(tree);
    let contexts = contexts_of(tree);
    let table = table_of(contexts, contexts.len() as int);
    let table_block = meta_block + ceil_div(next * 32, block_size);
    let dir_block = table_block + ceil_div(table.len() as int, block_size);
    let file_block = dir_block + dir_room(list, block_size);
    Fresh {
        block_size,
        meta_block,
        list,
        contexts,
        table,
        table_block,
        dir_block,
        file_block,
        end_block: file_block + file_room(list, block_size),
    }
}

/// The plan of a fresh image, and the tree with its numbers.
pub open spec fn fresh_plan(root: NodeView, block_size: int, meta_block: int) -> Result<
    (NodeView, Fresh),
    Fault,
> {
    match numbered(root, 1, 1, meta_block * block_size) {
        None => fail("EROFS inode offset overflow"@),
        Some((tree, next)) => {
            let f = placed_tree(tree, next, block_size, meta_block);
            if !dirs_fit(f.list, block_size) {
                fail("directory does not fit into blocks"@)
            } else if !sizes_fit(f.list, block_size) {
                fail("file is too large for a compact inode"@)
            } else if f.end_block > u32::MAX {
                fail("EROFS physical block overflow"@)
            } else if !places_fit(f) {
                fail("EROFS inode offset overflow"@)
            } else {
                Ok((tree, f))
            }
        },
    }
}

/// Where an inode is.
pub open spec fn inode_place(f: Fresh, nid: u64) -> int {
    f.meta_block * f.block_size + nid * 32
}

/// More than an inode takes with its extended attributes and its index.
pub const PLACE_MARGIN: u64 = 0x1000_0000;

/// Every inode ends at an offset, with its extended attributes and its index.
pub open spec fn places_fit(f: Fresh) -> bool {
    forall|k: int|
        0 <= k < f.list.len() ==> inode_place(f, (#[trigger] f.list[k]).nid) + PLACE_MARGIN <= u64::MAX
}

/// Rooms are no smaller for more nodes.
pub proof fn rooms_grow(s: Seq<NodeView>, block_size: int, i: int)
    requires
        0 <= i <= s.len(),
        block_size > 0,
    ensures
        0 <= dir_room(s.take(i), block_size) <= dir_room(s, block_size),
        0 <= file_room(s.take(i), block_size) <= file_room(s, block_size),
    decreases s.len(),
{
    if s.len() > 0 {
        ceil_div_covers(node_size(s.last(), block_size), block_size);
    }
    if i == s.len() {
        assert(s.take(i) =~= s);
        if s.len() > 0 {
            rooms_grow(s.drop_last(), block_size, i - 1);
            assert(s.drop_last().take(i - 1) =~= s.drop_last());
        }
    } else {
        rooms_grow(s.drop_last(), block_size, i);
        assert(s.drop_last().take(i) =~= s.take(i));
    }
}

/// Where everything of a fresh image goes.
pub struct FreshPlan<'a> {
    pub block_size: u64,
    pub meta_block: u64,
    pub list: Vec<&'a Node>,
    pub contexts: Vec<String>,
    pub table: Vec<u8>,
    pub ids: Vec<u32>,
    pub table_block: u64,
    pub dir_block: u64,
    pub file_block: u64,
    pub end_block: u64,
}

impl<'a> View for FreshPlan<'a> {
    type V = Fresh;

    open spec fn view(&self) -> Fresh {
        Fresh {
            block_size: self.block_size as int,
            meta_block: self.meta_block as int,
            list: ref_views(self.list@),
            contexts: texts(self.contexts@),
            table: self.table@,
            table_block: self.table_block as int,
            dir_block: self.dir_block as int,
            file_block: self.file_block as int,
            end_block: self.end_block as int,
        }
    }
}

impl<'a> FreshPlan<'a> {
    /// The blocks are in order and fit their fields, and the identifiers are
    /// those of the contexts.
    pub open spec fn wf(self) -> bool {
        &&& 512 <= self.block_size <= 65536
        &&& self.meta_block <= self.table_block <= self.dir_block <= self.file_block
            <= self.end_block <= u32::MAX
        &&& dirs_fit(self@.list, self@.block_size)
        &&& sizes_fit(self@.list, self@.block_size)
        &&& places_fit(self@)
        &&& self.dir_block == self.table_block + ceil_div(
            self.table@.len() as int,
            self.block_size as int,
        )
        &&& self.file_block == self.dir_block + dir_room(self@.list, self@.block_size)
        &&& self.end_block == self.file_block + file_room(self@.list, self@.block_size)
        &&& self.ids@.len() == self.contexts@.len()
        &&& self.table@ == table_of(self@.contexts, self@.contexts.len() as int)
        &&& forall|i: int|
            0 <= i < self.ids@.len() ==> #[trigger] self.ids@[i] == (table_of(
                self@.contexts,
                i,
            ).len() / 4) as u32
    }
}

fn check_nodes(list: &Vec<&Node>, block_size: u64) -> (r: Result<(), Error>)
    requires
        512 <= block_size <= 65536,
    ensures
        match r {
            Ok(_) => dirs_fit(ref_views(list@), block_size as int) && sizes_fit(
                ref_views(list@),
                block_size as int,
            ),
            Err(e) => if !dirs_fit(ref_views(list@), block_size as int) {
                e@ == Fault::Invalid("directory does not fit into blocks"@)
            } else {
                !sizes_fit(ref_views(list@), block_size as int) && e@ == Fault::Invalid(
                    "file is too large for a compact inode"@,
                )
            },
        },
{
    let ghost s = ref_views(list@);
    let ghost bs = block_size as int;
    let mut large = false;
    let mut i: usize = 0;
    while i < list.len()
        invariant
            i <= list@.len() == s.len(),
            s == ref_views(list@),
            bs == block_size,
            512 <= block_size <= 65536,
            forall|k: int|
                0 <= k < i ==> (#[trigger] s[k]).is_dir() ==> directory_content(s[k], bs).len() > 0,
            !large ==> forall|k: int| 0 <= k < i ==> node_size(#[trigger] s[k], bs) <= u32::MAX,
            large ==> !sizes_fit(s, bs),
        decreases list.len() - i,
    {
        let node = list[i];
        assert(s[i as int] == node@);
        let size = if node.is_dir() {
            let data = directory_bytes(node, block_size as usize);
            if data.len() == 0 {
                assert(!dirs_fit(s, bs));
                return Err(Error::invalid("directory does not fit into blocks"));
            }
            data.len() as u64
        } else {
            node.data_size
        };
        assert(size == node_size(s[i as int], bs));
        if size > u32::MAX as u64 {
            large = true;
            assert(!sizes_fit(s, bs));
        }
        i += 1;
    }
    assert(dirs_fit(s, bs));
    if large {
        return Err(Error::invalid("file is too large for a compact inode"));
    }
    Ok(())
}

/// The rooms, where everything fits.
fn measure(list: &Vec<&Node>, block_size: u64, start: u64) -> (r: Option<(u64, u64)>)
    requires
        512 <= block_size <= 65536,
        sizes_fit(ref_views(list@), block_size as int),
    ensures
        match r {
            Some((a, b)) => {
                &&& a == start + dir_room(ref_views(list@), block_size as int)
                &&& b == a + file_room(ref_views(list@), block_size as int)
                &&& b <= u32::MAX
            },
            None => start + dir_room(ref_views(list@), block_size as int) + file_room(
                ref_views(list@),
                block_size as int,
            ) > u32::MAX,
        },
{
    let ghost s = ref_views(list@);
    let ghost bs = block_size as int;
    let mut dirs: u64 = 0;
    let mut files: u64 = 0;
    let mut i: usize = 0;
    assert(s.take(0) =~= Seq::empty());
    if start > u32::MAX as u64 {
        proof {
            rooms_grow(s, bs, 0);
        }
        return None;
    }
    while i < list.len()
        invariant
            i <= list@.len() == s.len(),
            s == ref_views(list@),
            bs == block_size,
            512 <= block_size <= 65536,
            sizes_fit(s, bs),
            start <= u32::MAX,
            dirs == dir_room(s.take(i as int), bs),
            files == file_room(s.take(i as int), bs),
            start + dirs + files <= u32::MAX,
        decreases list.len() - i,
    {
        let node = list[i];
        proof {
            assert(s[i as int] == node@);
            let t = s.take(i + 1);
            assert(t.drop_last() =~= s.take(i as int));
            assert(t.last() == node@);
            rooms_grow(s, bs, i + 1);
            ceil_div_covers(node_size(node@, bs), bs);
        }
        if node.is_dir() {
            let data = directory_bytes(node, block_size as usize);
            dirs = dirs + div_up(data.len() as u64, block_size);
        } else if node.erofs_compact_clusters == 0 {
            files = files + div_up(node.data_size, block_size);
        }
        if start + dirs + files > u32::MAX as u64 {
            return None;
        }
        i += 1;
    }
    assert(s.take(i as int) =~= s);
    Some((start + dirs, start + dirs + files))
}

/// Numbers the nodes of the tree.
pub fn number_tree(root: &mut Node, block_size: u64, meta_block: u64) -> (r: Result<u64, Error>)
    requires
        countable(old(root)@),
        512 <= block_size <= 65536,
        meta_block <= u32::MAX,
    ensures
        match numbered(old(root)@, 1, 1, meta_block * block_size) {
            Some((tree, next)) => r is Ok && r->Ok_0 == next && final(root)@ == tree,
            None => r is Err && r->Err_0@ == Fault::Invalid("EROFS inode offset overflow"@),
        },
{
    assert(meta_block * block_size <= 0xffff_ffff * 65536) by (nonlinear_arith)
        requires
            meta_block <= 0xffff_ffff,
            block_size <= 65536,
    ;
    assign_nids_strided(root, 1, 1, meta_block * block_size)
}

/// Plans a fresh image for a tree with numbers up to `next`.
pub fn plan_fresh<'a>(tree: &'a Node, next: u64, block_size: u64, meta_block: u64) -> (r: Result<
    FreshPlan<'a>,
    Error,
>)
    requires
        512 <= block_size <= 65536,
        meta_block <= u32::MAX,
    ensures
        match r {
            Ok(p) => {
                let f = placed_tree(tree@, next as int, block_size as int, meta_block as int);
                &&& p.wf()
                &&& p@ == f
            },
            Err(e) => {
                let f = placed_tree(tree@, next as int, block_size as int, meta_block as int);
                if !dirs_fit(f.list, block_size as int) {
                    e@ == Fault::Invalid("directory does not fit into blocks"@)
                } else if !sizes_fit(f.list, block_size as int) {
                    e@ == Fault::Invalid("file is too large for a compact inode"@)
                } else if f.end_block > u32::MAX {
                    e@ == Fault::Invalid("EROFS physical block overflow"@)
                } else {
                    !places_fit(f) && e@ == Fault::Invalid("EROFS inode offset overflow"@)
                }
            },
        },
{
    let ghost f = placed_tree(tree@, next as int, block_size as int, meta_block as int);
    let mut list: Vec<&Node> = Vec::new();
    nodes(tree, &mut list);
    assert(ref_views(list@) =~= f.list);
    check_nodes(&list, block_size)?;
    let contexts = collect_contexts(tree);
    let (table, ids) = pack_shared_table(&contexts);
    assert(table@ == f.table);
    proof {
        rooms_grow(f.list, block_size as int, 0);
        ceil_div_covers(next * 32, block_size as int);
        ceil_div_covers(table@.len() as int, block_size as int);
    }
    if next > u32::MAX as u64 * 65536 {
        // That many inodes alone take too many blocks.
        proof {
            too_many_inodes(next as int, block_size as int);
        }
        return Err(Error::invalid("EROFS physical block overflow"));
    }
    let table_block = meta_block + div_up(next * 32, block_size);
    let dir_block = match table_block.checked_add(div_up(table.len() as u64, block_size)) {
        Some(n) => n,
        None => {
            return Err(Error::invalid("EROFS physical block overflow"));
        },
    };
    match measure(&list, block_size, dir_block) {
        None => Err(Error::invalid("EROFS physical block overflow")),
        Some((file_block, end_block)) => {
            let p = FreshPlan {
                block_size,
                meta_block,
                list,
                contexts,
                table,
                ids,
                table_block,
                dir_block,
                file_block,
                end_block,
            };
            check_places(&p)?;
            Ok(p)
        },
    }
}

fn check_places(p: &FreshPlan) -> (r: Result<(), Error>)
    requires
        p.block_size <= 65536,
        p.meta_block <= u32::MAX,
    ensures
        match r {
            Ok(_) => places_fit(p@),
            Err(e) => !places_fit(p@) && e@ == Fault::Invalid("EROFS inode offset overflow"@),
        },
{
    let ghost f = p@;
    assert(p.meta_block * p.block_size <= 0xffff_ffff * 65536) by (nonlinear_arith)
        requires
            p.meta_block <= 0xffff_ffff,
            p.block_size <= 65536,
    ;
    let base = p.meta_block * p.block_size;
    let most = (u64::MAX - PLACE_MARGIN - base) / 32;
    let mut i: usize = 0;
    while i < p.list.len()
        invariant
            f == p@,
            base == p.meta_block * p.block_size,
            most == (u64::MAX - PLACE_MARGIN - base) / 32,
            i <= p.list@.len() == f.list.len(),
            forall|k: int|
                0 <= k < i ==> inode_place(f, (#[trigger] f.list[k]).nid) + PLACE_MARGIN <= u64::MAX,
        decreases p.list.len() - i,
    {
        assert(f.list[i as int] == p.list@[i as int]@);
        if p.list[i].nid > most {
            assert(inode_place(f, f.list[i as int].nid) + PLACE_MARGIN > u64::MAX);
            return Err(Error::invalid("EROFS inode offset overflow"));
        }
        i += 1;
    }
    Ok(())
}

proof fn too_many_inodes(next: int, block_size: int)
    requires
        next > u32::MAX * 65536,
        512 <= block_size <= 65536,
    ensures
        ceil_div(next * 32, block_size) > u32::MAX,
{
    ceil_div_covers(next * 32, block_size);
    let q = ceil_div(next * 32, block_size);
    assert(q * block_size >= next * 32);
    assert(q > u32::MAX) by (nonlinear_arith)
        requires
            q * block_size >= next * 32,
            next * 32 > u32::MAX * 65536 * 32,
            block_size <= 65536,
            block_size > 0,
    ;
}

// ---------------------------------------------------------------------
// Metadata
// ---------------------------------------------------------------------
/// The place of a context in the table, or the number of contexts where it
/// is not there.
pub open spec fn context_index(s: Seq<Seq<char>>, c: Seq<char>, i: int) -> int
    decreases s.len() - i,
{
    if i >= s.len() {
        s.len() as int
    } else if s[i] == c {
        i
    } else {
        context_index(s, c, i + 1)
    }
}

/// The first block of the content of the node with the given index.
pub open spec fn raw_block_of(f: Fresh, k: int) -> int {
    let n = f.list[k];
    if n.is_dir() {
        f.dir_block + dir_room(f.list.take(k), f.block_size)
    } else if is_plain_file(n) && n.data_size > 0 {
        f.file_block + file_room(f.list.take(k), f.block_size)
    } else {
        0
    }
}

/// The area of extended attributes of a node.
pub open spec fn node_area(f: Fresh, n: NodeView) -> Seq<u8> {
    if n.labelled() {
        let i = context_index(f.contexts, n.context->Some_0, 0);
        area_of(seq![(table_of(f.contexts, i).len() / 4) as u32])
    } else {
        Seq::empty()
    }
}

/// The inode of the node with the given index, with its extended attributes.
pub open spec fn inode_image(f: Fresh, k: int) -> Seq<u8> {
    let n = f.list[k];
    inode_body(
        n,
        if !n.is_dir() && n.erofs_compact_clusters > 0 {
            3
        } else {
            0
        },
        if n.labelled() {
            2
        } else {
            0
        },
        node_size(n, f.block_size) as u32,
        raw_block_of(f, k) as u32,
    ) + node_area(f, n)
}

/// The writes of the first `n` inodes.
pub open spec fn inode_writes(f: Fresh, n: int) -> Seq<PatchView>
    decreases n,
{
    if n <= 0 {
        Seq::empty()
    } else {
        inode_writes(f, n - 1).push(
            PatchView { at: inode_place(f, f.list[n - 1].nid), data: inode_image(f, n - 1) },
        )
    }
}

/// The writes of the directories among the first `n` nodes.
pub open spec fn dir_writes(f: Fresh, n: int) -> Seq<PatchView>
    decreases n,
{
    if n <= 0 {
        Seq::empty()
    } else if f.list[n - 1].is_dir() {
        dir_writes(f, n - 1).push(
            PatchView {
                at: raw_block_of(f, n - 1) * f.block_size,
                data: directory_content(f.list[n - 1], f.block_size),
            },
        )
    } else {
        dir_writes(f, n - 1)
    }
}

/// The writes of everything but the superblock and the files.
pub open spec fn fresh_writes(f: Fresh) -> Seq<PatchView> {
    (if f.table.len() == 0 {
        Seq::empty()
    } else {
        seq![PatchView { at: f.table_block * f.block_size, data: f.table }]
    }) + inode_writes(f, f.list.len() as int) + dir_writes(f, f.list.len() as int)
}

fn find_context(contexts: &Vec<String>, c: &str) -> (i: usize)
    ensures
        i == context_index(texts(contexts@), c@, 0),
        i <= contexts@.len(),
{
    let mut i: usize = 0;
    while i < contexts.len()
        invariant
            i <= contexts@.len(),
            context_index(texts(contexts@), c@, 0) == context_index(
                texts(contexts@),
                c@,
                i as int,
            ),
        decreases contexts.len() - i,
    {
        assert(texts(contexts@)[i as int] == contexts@[i as int]@);
        if same(contexts[i].as_str(), c) {
            return i;
        }
        i += 1;
    }
    i
}

/// Builds the attributes of a node.
pub fn build_area(p: &FreshPlan, node: &Node) -> (v: Vec<u8>)
    requires
        p.wf(),
    ensures
        v@ == node_area(p@, node@),
{
    if !node_needs_xattr(node) {
        let none: Vec<u8> = Vec::new();
        assert(none@ =~= Seq::empty());
        return none;
    }
    match &node.context {
        None => Vec::new(),
        Some(c) => {
            let i = find_context(&p.contexts, c.as_str());
            let id: u32 = if i < p.ids.len() {
                p.ids[i]
            } else {
                (p.table.len() / 4) as u32
            };
            let ids: Vec<u32> = vec![id];
            assert(ids@ =~= seq![id]);
            area_bytes(&ids)
        },
    }
}

/// Adds the writes of everything but the superblock and the files.
pub fn push_fresh_writes(p: &FreshPlan, out: &mut Vec<Patch>)
    requires
        p.wf(),
    ensures
        patch_views(final(out)@) == patch_views(old(out)@) + fresh_writes(p@),
{
    let ghost f = p@;
    let ghost before = patch_views(out@);
    let bs = p.block_size;
    assert(p.meta_block * bs <= 0xffff_ffff * 65536 && p.table_block * bs <= 0xffff_ffff * 65536)
        by (nonlinear_arith)
        requires
            p.meta_block <= 0xffff_ffff,
            p.table_block <= 0xffff_ffff,
            bs <= 65536,
    ;
    if p.table.len() > 0 {
        let t = crate::buf::copy_range(&p.table, 0, p.table.len());
        assert(t@ =~= p.table@);
        push_patch(out, p.table_block * bs, t);
    }
    let ghost head = patch_views(out@);
    assert(head =~= before + (if f.table.len() == 0 {
        Seq::empty()
    } else {
        seq![PatchView { at: f.table_block * f.block_size, data: f.table }]
    }));
    let base = p.meta_block * bs;
    let mut dirs: u64 = 0;
    let mut files: u64 = 0;
    let mut i: usize = 0;
    assert(f.list.take(0) =~= Seq::empty());
    assert(head + inode_writes(f, 0) =~= head);
    while i < p.list.len()
        invariant
            p.wf(),
            f == p@,
            bs == p.block_size,
            base == p.meta_block * bs,
            i <= p.list@.len() == f.list.len(),
            dirs == dir_room(f.list.take(i as int), bs as int),
            files == file_room(f.list.take(i as int), bs as int),
            patch_views(out@) == head + inode_writes(f, i as int),
        decreases p.list.len() - i,
    {
        let node = p.list[i];
        proof {
            assert(f.list[i as int] == node@);
            let t = f.list.take(i + 1);
            assert(t.drop_last() =~= f.list.take(i as int));
            assert(t.last() == node@);
            rooms_grow(f.list, bs as int, i as int);
            rooms_grow(f.list, bs as int, i + 1);
        }
        let size = if node.is_dir() {
            directory_bytes(node, bs as usize).len() as u64
        } else {
            node.data_size
        };
        proof {
            ceil_div_covers(size as int, bs as int);
        }
        let raw: u64 = if node.is_dir() {
            p.dir_block + dirs
        } else if node.erofs_compact_clusters == 0 && node.data_size > 0 {
            p.file_block + files
        } else {
            0
        };
        assert(raw == raw_block_of(f, i as int));
        let mut inode = build_inode_body(
            node,
            node.nid,
            if !node.is_dir() && node.erofs_compact_clusters > 0 {
                3
            } else {
                0
            },
            if node_needs_xattr(node) {
                2
            } else {
                0
            },
            size as u32,
            raw as u32,
        );
        let area = build_area(p, node);
        push_bytes(&mut inode, &area);
        assert(inode@ =~= inode_image(f, i as int));
        assert(inode_place(f, f.list[i as int].nid) + PLACE_MARGIN <= u64::MAX);
        let at = base + node.nid * 32;
        push_patch(out, at, inode);
        assert(patch_views(out@) =~= head + inode_writes(f, i + 1));
        if node.is_dir() {
            dirs = dirs + div_up(size, bs);
        } else if node.erofs_compact_clusters == 0 {
            files = files + div_up(size, bs);
        }
        i += 1;
    }
    push_dir_writes(p, out);
    assert(patch_views(out@) =~= before + fresh_writes(f));
}

fn push_dir_writes(p: &FreshPlan, out: &mut Vec<Patch>)
    requires
        p.wf(),
    ensures
        patch_views(final(out)@) == patch_views(old(out)@) + dir_writes(
            p@,
            p@.list.len() as int,
        ),
{
    let ghost f = p@;
    let ghost before = patch_views(out@);
    let bs = p.block_size;
    let mut dirs: u64 = 0;
    let mut i: usize = 0;
    assert(f.list.take(0) =~= Seq::empty());
    assert(before + dir_writes(f, 0) =~= before);
    while i < p.list.len()
        invariant
            p.wf(),
            f == p@,
            bs == p.block_size,
            i <= p.list@.len() == f.list.len(),
            dirs == dir_room(f.list.take(i as int), bs as int),
            patch_views(out@) == before + dir_writes(f, i as int),
        decreases p.list.len() - i,
    {
        let node = p.list[i];
        proof {
            assert(f.list[i as int] == node@);
            let t = f.list.take(i + 1);
            assert(t.drop_last() =~= f.list.take(i as int));
            assert(t.last() == node@);
            rooms_grow(f.list, bs as int, i as int);
            rooms_grow(f.list, bs as int, i + 1);
        }
        if node.is_dir() {
            let data = directory_bytes(node, bs as usize);
            let n = div_up(data.len() as u64, bs);
            let block = p.dir_block + dirs;
            assert(block * bs <= 0xffff_ffff * 65536) by (nonlinear_arith)
                requires
                    block <= 0xffff_ffff,
                    bs <= 65536,
            ;
            push_patch(out, block * bs, data);
            assert(patch_views(out@) =~= before + dir_writes(f, i + 1));
            dirs = dirs + n;
        }
        i += 1;
    }
}

// ---------------------------------------------------------------------
// The superblock
// ---------------------------------------------------------------------
/// The number of times a number can be halved.
pub open spec fn log2(n: int) -> int
    decreases n,
{
    if n <= 1 {
        0
    } else {
        1 + log2(n / 2)
    }
}

/// The number of times a number can be halved.
pub fn log_two(n: u64) -> (r: u8)
    requires
        n <= 0xffff_ffff,
    ensures
        r == log2(n as int),
        r < 32,
{
    let mut left = n;
    let mut r: u8 = 0;
    proof {
        vstd::arithmetic::power2::lemma2_to64();
        log2_small(n as int, 32);
    }
    while left > 1
        invariant
            log2(n as int) == r + log2(left as int),
            log2(n as int) < 32,
            r < 32,
            left < 0x1_0000_0000,
        decreases left,
    {
        proof {
            vstd::arithmetic::power2::lemma2_to64();
            log2_small(left as int, 32);
            assert(log2(left as int / 2) >= 0);
        }
        left = left / 2;
        r += 1;
    }
    r
}

proof fn log2_small(n: int, bits: nat)
    requires
        n < vstd::arithmetic::power2::pow2(bits) || n <= 1,
    ensures
        0 <= log2(n),
        bits > 0 ==> log2(n) < bits,
        log2(n / 2) >= 0,
    decreases bits,
{
    if n > 1 {
        vstd::arithmetic::power2::lemma2_to64();
        if bits > 0 {
            vstd::arithmetic::power2::lemma_pow2_unfold(bits);
            log2_small(n / 2, (bits - 1) as nat);
        }
    }
}

/// Every write ends at an offset.
pub open spec fn writes_fit(w: Seq<PatchView>) -> bool {
    forall|k: int| 0 <= k < w.len() ==> (#[trigger] w[k]).at + w[k].data.len() <= u64::MAX
}

/// Adds a write that ends at an offset.
pub fn push_fitting(out: &mut Vec<Patch>, at: u64, data: Vec<u8>)
    requires
        at + data@.len() <= u64::MAX,
    ensures
        patch_views(final(out)@) == patch_views(old(out)@).push(
            PatchView { at: at as int, data: data@ },
        ),
        writes_fit(patch_views(old(out)@)) ==> writes_fit(patch_views(final(out)@)),
{
    let ghost before = patch_views(out@);
    push_patch(out, at, data);
    proof {
        let now = patch_views(out@);
        if writes_fit(before) {
            assert forall|k: int| 0 <= k < now.len() implies (#[trigger] now[k]).at
                + now[k].data.len() <= u64::MAX by {
                if k < before.len() {
                    assert(now[k] == before[k]);
                }
            }
        }
    }
}

/// The bytes of the inode of a node and of its attributes.
pub proof fn image_length(f: Fresh, k: int)
    ensures
        inode_image(f, k).len() == f.list[k].body() + node_area(f, f.list[k]).len(),
{
    let n = f.list[k];
    body_length(
        n,
        if !n.is_dir() && n.erofs_compact_clusters > 0 {
            3
        } else {
            0
        },
        if n.labelled() {
            2
        } else {
            0
        },
        node_size(n, f.block_size) as u32,
        raw_block_of(f, k) as u32,
    );
}

/// The attributes of a node take sixteen bytes at most.
pub proof fn area_length(f: Fresh, n: NodeView)
    ensures
        node_area(f, n).len() <= 16,
{
    if n.labelled() {
        let i = context_index(f.contexts, n.context->Some_0, 0);
        let id = (table_of(f.contexts, i).len() / 4) as u32;
        let ids = seq![id];
        assert(ids.drop_last() =~= Seq::empty());
        assert(crate::fs::erofs::xattr::words(ids.drop_last()).len() == 0);
        assert(crate::fs::erofs::xattr::words(ids).len() == 4);
    }
}

proof fn inode_writes_fit(f: Fresh, n: int)
    requires
        0 <= n <= f.list.len(),
        places_fit(f),
    ensures
        writes_fit(inode_writes(f, n)),
    decreases n,
{
    if n > 0 {
        inode_writes_fit(f, n - 1);
        area_length(f, f.list[n - 1]);
        image_length(f, n - 1);
        assert(inode_place(f, f.list[n - 1].nid) + PLACE_MARGIN <= u64::MAX);
    }
}

proof fn dir_writes_fit(f: Fresh, n: int)
    requires
        0 <= n <= f.list.len(),
        512 <= f.block_size <= 65536,
        0 <= f.dir_block,
        f.dir_block + dir_room(f.list, f.block_size) <= u32::MAX,
    ensures
        writes_fit(dir_writes(f, n)),
    decreases n,
{
    if n > 0 {
        dir_writes_fit(f, n - 1);
        let t = f.list.take(n);
        assert(t.drop_last() =~= f.list.take(n - 1));
        assert(t.last() == f.list[n - 1]);
        rooms_grow(f.list, f.block_size, n);
        if f.list[n - 1].is_dir() {
            let size = node_size(f.list[n - 1], f.block_size);
            let blocks = ceil_div(size, f.block_size);
            let raw = raw_block_of(f, n - 1);
            ceil_div_covers(size, f.block_size);
            assert(raw * f.block_size + size <= u32::MAX * 65536) by (nonlinear_arith)
                requires
                    raw + blocks <= u32::MAX,
                    size <= blocks * f.block_size,
                    0 < f.block_size <= 65536,
                    raw + blocks >= 0,
            ;
        }
    }
}

/// Every write of a plan ends at an offset.
pub proof fn fresh_writes_fit(f: Fresh)
    requires
        512 <= f.block_size <= 65536,
        places_fit(f),
        0 <= f.table_block,
        f.dir_block == f.table_block + ceil_div(f.table.len() as int, f.block_size),
        f.dir_block + dir_room(f.list, f.block_size) <= u32::MAX,
    ensures
        writes_fit(fresh_writes(f)),
{
    inode_writes_fit(f, f.list.len() as int);
    dir_writes_fit(f, f.list.len() as int);
    rooms_grow(f.list, f.block_size, 0);
    let size = f.table.len() as int;
    let blocks = ceil_div(size, f.block_size);
    ceil_div_covers(size, f.block_size);
    assert(f.table_block * f.block_size + size <= u32::MAX * 65536) by (nonlinear_arith)
        requires
            f.table_block + blocks <= u32::MAX,
            size <= blocks * f.block_size,
            0 < f.block_size <= 65536,
            f.table_block + blocks >= 0,
    ;
}

/// The superblock of a fresh image.
#[verifier::opaque]
pub open spec fn super_bytes(
    f: Fresh,
    compat: u32,
    root_nid: u64,
    build_time: u64,
    blocks: int,
    volume: Seq<u8>,
    ro_compat: u32,
) -> Seq<u8> {
    bytes32(MAGIC) + zeros(4) + bytes32(compat) + seq![log2(f.block_size) as u8, 0u8] + bytes16(
        root_nid as u16,
    ) + bytes64(f.list.len() as u64) + bytes64(build_time) + zeros(4) + bytes32(blocks as u32)
        + bytes32(f.meta_block as u32) + bytes32(
        if f.table.len() == 0 {
            0
        } else {
            f.table_block as u32
        },
    ) + zeros(16) + volume + zeros(20) + bytes32(ro_compat) + zeros(24)
}

/// The superblock takes 128 bytes.
pub proof fn super_length(
    f: Fresh,
    compat: u32,
    root_nid: u64,
    build_time: u64,
    blocks: int,
    volume: Seq<u8>,
    ro_compat: u32,
)
    requires
        volume.len() == 16,
    ensures
        super_bytes(f, compat, root_nid, build_time, blocks, volume, ro_compat).len() == 128,
{
    reveal(super_bytes);
}

/// Builds the superblock of a fresh image.
pub fn build_super(
    p: &FreshPlan,
    compat: u32,
    root_nid: u64,
    build_time: u64,
    blocks: u64,
    volume: &[u8; 16],
    ro_compat: u32,
) -> (v: Vec<u8>)
    requires
        p.wf(),
    ensures
        v@ == super_bytes(p@, compat, root_nid, build_time, blocks as int, volume@, ro_compat),
{
    proof {
        reveal(super_bytes);
    }
    let mut v: Vec<u8> = Vec::new();
    push32(&mut v, MAGIC);
    push_bytes(&mut v, &zeroed(4));
    push32(&mut v, compat);
    v.push(log_two(p.block_size));
    v.push(0);
    push16(&mut v, root_nid as u16);
    push64(&mut v, p.list.len() as u64);
    push64(&mut v, build_time);
    push_bytes(&mut v, &zeroed(4));
    push32(&mut v, blocks as u32);
    push32(&mut v, p.meta_block as u32);
    push32(
        &mut v,
        if p.table.len() == 0 {
            0
        } else {
            p.table_block as u32
        },
    );
    push_bytes(&mut v, &zeroed(16));
    push_bytes(&mut v, volume);
    push_bytes(&mut v, &zeroed(20));
    push32(&mut v, ro_compat);
    push_bytes(&mut v, &zeroed(24));
    assert(v@ =~= super_bytes(
        p@,
        compat,
        root_nid,
        build_time,
        blocks as int,
        volume@,
        ro_compat,
    ));
    v
}

} // verus!
