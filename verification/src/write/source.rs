//! The tree of files of an EROFS image.
use super::node::{node_views, Node, NodePayload, NodeView, PayloadView};
use crate::error::{fail, told, Error, Fault};
use crate::fs::erofs::dir::{parse, parsed, raw_views, DirEntryRaw, RawView};
use crate::fs::erofs::inode::{self, data_of, inode_of, read_data, Inode};
use crate::fs::erofs::xattr::{selinux, selinux_of};
use crate::fs::erofs::{superblock, SuperView, Superblock};
use crate::image::{ByteSource, Image};
use crate::text::{dec, opt_text, push_numeral, push_text, same};
use vstd::prelude::*;

verus! {

/// The deepest directory that is read.
pub const MAX_DEPTH: u32 = 512;

/// The superblock of an image that can be edited.
pub open spec fn editable(d: Seq<u8>) -> Result<SuperView, Fault> {
    match superblock(d) {
        Err(e) => Err(e),
        Ok(sb) => if 4096 <= sb.block_size <= 65536 {
            Ok(sb)
        } else {
            fail("unsupported EROFS block size"@)
        },
    }
}

/// An EROFS image opened for editing.
pub struct Source<S> {
    pub reader: Image<S>,
    pub sb: Superblock,
}

impl<S: ByteSource> Source<S> {
    /// The superblock is sound, and so is the image.
    pub open spec fn wf(self) -> bool {
        &&& self.reader.wf()
        &&& self.sb.wf()
        &&& 4096 <= self.sb.block_size <= 65536
    }

    /// Opens an image for editing.
    pub fn open(reader: Image<S>) -> (r: Result<Source<S>, Error>)
        requires
            reader.wf(),
        ensures
            match r {
                Ok(s) => s.wf() && s.reader == reader && editable(reader.disk()) == Ok::<
                    SuperView,
                    Fault,
                >(s.sb@),
                Err(e) => editable(reader.disk()) == Err::<SuperView, Fault>(e@) || (
                reader.faulty() && e is Io),
            },
    {
        let sb = Superblock::read(&reader)?;
        if sb.block_size < 4096 || sb.block_size > 65536 {
            return Err(Error::invalid("unsupported EROFS block size"));
        }
        Ok(Source { reader, sb })
    }

    /// The content of a file.
    pub fn data(&self, nid: u64) -> (r: Result<Vec<u8>, Error>)
        requires
            self.wf(),
        ensures
            told(self.reader.faulty(), r, content_of(self.sb, self.reader.disk(), nid)),
    {
        let fi = inode::read(&self.sb, &self.reader, nid)?;
        read_data(&self.sb, &self.reader, &fi)
    }

    /// The tree below an inode.
    pub fn tree(&self, nid: u64, name: String) -> (r: Result<Node, Error>)
        requires
            self.wf(),
        ensures
            told(self.reader.faulty(), r, tree_of(self.sb, self.reader.disk(), nid, name@, 0)),
    {
        self.tree_depth(nid, name, 0)
    }

    fn tree_depth(&self, nid: u64, name: String, depth: u32) -> (r: Result<Node, Error>)
        requires
            self.wf(),
            depth <= MAX_DEPTH + 1,
        ensures
            told(
                self.reader.faulty(),
                r,
                tree_of(self.sb, self.reader.disk(), nid, name@, depth as int),
            ),
        decreases MAX_DEPTH + 2 - depth, 0int,
    {
        if depth > MAX_DEPTH {
            return Err(Error::invalid("directory nesting is too deep"));
        }
        let fi = inode::read(&self.sb, &self.reader, nid)?;
        let is_dir = fi.size > 0 && fi.mode & 0xf000 == 0x4000;
        if !is_dir {
            let context = selinux(&self.sb, &self.reader, &fi)?;
            let node = fresh(nid, name, &fi, NodePayload::Empty, Vec::new(), context);
            assert(node@.children =~= Seq::empty());
            return Ok(node);
        }
        let data = read_data(&self.sb, &self.reader, &fi)?;
        let context = selinux(&self.sb, &self.reader, &fi)?;
        let entries = match parse(&data, self.sb.block_size as usize) {
            Ok(v) => v,
            Err(e) => {
                return Err(entry_error(nid, name.as_str(), &e));
            },
        };
        let children = self.children(&entries, depth + 1)?;
        Ok(fresh(nid, name, &fi, NodePayload::InlineDir(data), children, context))
    }

    fn children(&self, entries: &Vec<DirEntryRaw>, depth: u32) -> (r: Result<Vec<Node>, Error>)
        requires
            self.wf(),
            depth <= MAX_DEPTH + 1,
        ensures
            match r {
                Ok(v) => kids_of(
                    self.sb,
                    self.reader.disk(),
                    raw_views(entries@),
                    depth as int,
                ) == Ok::<Seq<NodeView>, Fault>(node_views(v@)),
                Err(e) => kids_of(
                    self.sb,
                    self.reader.disk(),
                    raw_views(entries@),
                    depth as int,
                ) == Err::<Seq<NodeView>, Fault>(e@) || (self.reader.faulty() && e is Io),
            },
        decreases MAX_DEPTH + 2 - depth, 1int,
    {
        let ghost all = raw_views(entries@);
        let ghost d = self.reader.disk();
        let mut out: Vec<Node> = Vec::new();
        let mut i: usize = 0;
        assert(all.take(0) =~= Seq::empty());
        assert(node_views(out@) =~= Seq::empty());
        while i < entries.len()
            invariant
                self.wf(),
                i <= entries@.len(),
                depth <= MAX_DEPTH + 1,
                all == raw_views(entries@),
                d == self.reader.disk(),
                kids_of(self.sb, d, all.take(i as int), depth as int) == Ok::<Seq<NodeView>, Fault>(
                    node_views(out@),
                ),
            decreases entries.len() - i,
        {
            let ghost next = all.take(i + 1);
            proof {
                assert(next.drop_last() =~= all.take(i as int));
                assert(next.last() == entries@[i as int]@);
            }
            let name = entries[i].name.clone();
            if !same(name.as_str(), ".") && !same(name.as_str(), "..") {
                match self.tree_depth(entries[i].nid, name, depth) {
                    Ok(node) => {
                        let ghost before = node_views(out@);
                        out.push(node);
                        assert(node_views(out@) =~= before.push(node@));
                    },
                    Err(e) => {
                        proof {
                            if !(self.reader.faulty() && e is Io) {
                                kids_fail_early(self.sb, d, all, depth as int, i + 1);
                            }
                        }
                        return Err(e);
                    },
                }
            }
            i += 1;
        }
        assert(all.take(i as int) =~= all);
        Ok(out)
    }
}

/// The content of the file with the given number.
pub open spec fn content_of(sb: Superblock, d: Seq<u8>, nid: u64) -> Result<Seq<u8>, Fault> {
    match inode_of(sb, d, nid) {
        Err(e) => Err(e),
        Ok(fi) => data_of(sb, d, fi),
    }
}

/// A node as it is read.
pub open spec fn read_node(
    nid: u64,
    name: Seq<char>,
    fi: Inode,
    payload: PayloadView,
    children: Seq<NodeView>,
    context: Option<Seq<char>>,
) -> NodeView {
    NodeView {
        nid,
        original_nid: nid,
        parent_nid: 0,
        name,
        mode: fi.mode,
        uid: fi.uid,
        gid: fi.gid,
        payload,
        data_size: fi.size,
        children,
        layout: fi.layout,
        raw_block: fi.raw_blkaddr,
        modified: false,
        content_changed: false,
        context,
        context_explicit: false,
        extents: Seq::empty(),
        erofs_compact_clusters: 0,
    }
}

fn fresh(
    nid: u64,
    name: String,
    fi: &Inode,
    payload: NodePayload,
    children: Vec<Node>,
    context: Option<String>,
) -> (n: Node)
    ensures
        n@ == read_node(
            nid,
            name@,
            *fi,
            payload@,
            node_views(children@),
            opt_text(context),
        ),
{
    Node {
        nid,
        original_nid: nid,
        parent_nid: 0,
        name,
        mode: fi.mode,
        uid: fi.uid,
        gid: fi.gid,
        payload,
        data_size: fi.size,
        children,
        layout: fi.layout,
        raw_block: fi.raw_blkaddr,
        modified: false,
        content_changed: false,
        context,
        context_explicit: false,
        extents: Vec::new(),
        erofs_compact_clusters: 0,
    }
}

/// What is wrong with a directory.
pub open spec fn entry_fault(nid: u64, name: Seq<char>, f: Fault) -> Fault {
    let m = match f {
        Fault::Invalid(m) => m,
        Fault::Io => "input/output error"@,
    };
    Fault::Invalid("directory inode "@ + dec(nid as int) + " ("@ + name + "): "@ + m)
}

fn entry_error(nid: u64, name: &str, cause: &Error) -> (e: Error)
    ensures
        e@ == entry_fault(nid, name@, cause@),
{
    let mut s: String = "directory inode ".to_owned();
    push_numeral(&mut s, nid, 10);
    push_text(&mut s, " (");
    push_text(&mut s, name);
    push_text(&mut s, "): ");
    push_text(&mut s, cause.message().as_str());
    Error::Invalid(s)
}

/// The tree below an inode.
pub open spec fn tree_of(
    sb: Superblock,
    d: Seq<u8>,
    nid: u64,
    name: Seq<char>,
    depth: int,
) -> Result<NodeView, Fault>
    decreases MAX_DEPTH + 2 - depth, 0int, 0int,
{
    if depth > MAX_DEPTH {
        fail("directory nesting is too deep"@)
    } else {
        match inode_of(sb, d, nid) {
            Err(e) => Err(e),
            Ok(fi) => if !(fi.size > 0 && fi.mode & 0xf000 == 0x4000) {
                match selinux_of(sb, d, fi) {
                    Err(e) => Err(e),
                    Ok(context) => Ok(
                        read_node(nid, name, fi, PayloadView::Empty, Seq::empty(), context),
                    ),
                }
            } else {
                match data_of(sb, d, fi) {
                    Err(e) => Err(e),
                    Ok(data) => match selinux_of(sb, d, fi) {
                        Err(e) => Err(e),
                        Ok(context) => match parsed(data, sb.block_size as int) {
                            Err(e) => Err(entry_fault(nid, name, e)),
                            Ok(entries) => match kids_of(sb, d, entries, depth + 1) {
                                Err(e) => Err(e),
                                Ok(children) => Ok(
                                    read_node(
                                        nid,
                                        name,
                                        fi,
                                        PayloadView::InlineDir(data),
                                        children,
                                        context,
                                    ),
                                ),
                            },
                        },
                    },
                }
            },
        }
    }
}

/// The trees below the entries of a directory, but for the directory itself
/// and its parent.
pub open spec fn kids_of(sb: Superblock, d: Seq<u8>, entries: Seq<RawView>, depth: int) -> Result<
    Seq<NodeView>,
    Fault,
>
    decreases MAX_DEPTH + 2 - depth, 1int, entries.len(),
    when depth <= MAX_DEPTH + 1
{
    if entries.len() == 0 {
        Ok(Seq::empty())
    } else {
        match kids_of(sb, d, entries.drop_last(), depth) {
            Err(e) => Err(e),
            Ok(s) => {
                let e = entries.last();
                if e.name == "."@ || e.name == ".."@ {
                    Ok(s)
                } else {
                    match tree_of(sb, d, e.nid, e.name, depth) {
                        Err(e) => Err(e),
                        Ok(n) => Ok(s.push(n)),
                    }
                }
            },
        }
    }
}

/// What fails for the first entries fails for all.
proof fn kids_fail_early(sb: Superblock, d: Seq<u8>, entries: Seq<RawView>, depth: int, i: int)
    requires
        0 <= i <= entries.len(),
        depth <= MAX_DEPTH + 1,
        kids_of(sb, d, entries.take(i), depth) is Err,
    ensures
        kids_of(sb, d, entries, depth) == kids_of(sb, d, entries.take(i), depth),
    decreases entries.len(),
{
    if i == entries.len() {
        assert(entries.take(i) =~= entries);
    } else {
        assert(entries.drop_last().take(i) =~= entries.take(i));
        kids_fail_early(sb, d, entries.drop_last(), depth, i);
    }
}

} // verus!
