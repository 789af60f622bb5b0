//! The tree of files of an ext4 image.
use super::node::{node_views, Node, NodePayload, NodeView, PayloadView};
use super::source::MAX_DEPTH;
use crate::buf::{get16, le16};
use crate::error::{fail, told, Error, Fault};
use crate::fs::ext4::dir::{self, entries_of, raw_views, DirEntryRaw, RawView};
use crate::fs::ext4::inode::{
    self, collect_extents, data_of, extents_of, inode_of, Ext4Inode, Extent, InodeView,
};
use crate::fs::ext4::{probe, probed, superblock, Superblock, EXT4_EXTENT_MAGIC};
use crate::image::{ByteSource, Image};
use crate::math::{ceil_div, div_up};
use crate::text::{copy_opt, dec, hex, push_numeral, push_text, same, with_number};
use vstd::prelude::*;

verus! {

/// The feature of a journal.
pub const COMPAT_HAS_JOURNAL: u32 = 0x4;

/// The feature of checksums for metadata.
pub const RO_METADATA_CSUM: u32 = 0x400;

/// The incompatible features that a rebuild knows: extents and file types
/// in directories.
pub const KNOWN_INCOMPAT: u32 = 0x42;

/// The features that a rebuild does not know.
pub open spec fn feature_complaint(sb: Superblock) -> Seq<char> {
    "unsupported ext4 features: compat=0x"@ + hex(sb.compat as int) + " incompat=0x"@ + hex(
        sb.incompat as int,
    ) + " ro_compat=0x"@ + hex(sb.ro_compat as int)
        + "; metadata_csum, 64bit, encryption and unknown features are rejected"@
}

fn feature_error(sb: &Superblock) -> (e: Error)
    ensures
        e@ == Fault::Invalid(feature_complaint(*sb)),
{
    let mut s: String = "unsupported ext4 features: compat=0x".to_owned();
    push_numeral(&mut s, sb.compat as u64, 16);
    push_text(&mut s, " incompat=0x");
    push_numeral(&mut s, sb.incompat as u64, 16);
    push_text(&mut s, " ro_compat=0x");
    push_numeral(&mut s, sb.ro_compat as u64, 16);
    push_text(
        &mut s,
        "; metadata_csum, 64bit, encryption and unknown features are rejected",
    );
    Error::Invalid(s)
}

/// The superblock, where a rebuild can take over the image.
pub open spec fn rebuildable(sb: Superblock) -> Result<Superblock, Fault> {
    if sb.inode_size < 128 || sb.inode_size % 4 != 0 {
        fail("invalid ext4 inode size"@)
    } else if sb.compat & COMPAT_HAS_JOURNAL != 0 {
        fail("ext4 journal feature is unsupported by the standalone rebuild"@)
    } else if sb.incompat & !KNOWN_INCOMPAT != 0 || sb.ro_compat & RO_METADATA_CSUM != 0 {
        fail(feature_complaint(sb))
    } else if sb.blocks_per_group == 0 {
        fail("invalid ext4 blocks per group"@)
    } else if sb.group_descriptor_size != 32 {
        fail("ext4 backend requires classic 32-byte group descriptors"@)
    } else if ceil_div(sb.block_count as int, sb.blocks_per_group as int) > u32::MAX {
        fail("ext4 group count is too large"@)
    } else {
        Ok(sb)
    }
}

/// The superblock of an image that can be rebuilt.
pub open spec fn ext4_editable(d: Seq<u8>) -> Result<Superblock, Fault> {
    match probed(d) {
        Err(e) => Err(e),
        Ok(false) => fail("input is not ext4"@),
        Ok(true) => match superblock(d) {
            Err(e) => Err(e),
            Ok(sb) => rebuildable(sb),
        },
    }
}

fn check_profile(sb: &Superblock) -> (r: Result<(), Error>)
    ensures
        match r {
            Ok(_) => rebuildable(*sb) == Ok::<Superblock, Fault>(*sb),
            Err(e) => rebuildable(*sb) == Err::<Superblock, Fault>(e@),
        },
{
    if sb.inode_size < 128 || sb.inode_size % 4 != 0 {
        return Err(Error::invalid("invalid ext4 inode size"));
    }
    if sb.compat & COMPAT_HAS_JOURNAL != 0 {
        return Err(
            Error::invalid("ext4 journal feature is unsupported by the standalone rebuild"),
        );
    }
    if sb.incompat & !KNOWN_INCOMPAT != 0 || sb.ro_compat & RO_METADATA_CSUM != 0 {
        return Err(feature_error(sb));
    }
    if sb.blocks_per_group == 0 {
        return Err(Error::invalid("invalid ext4 blocks per group"));
    }
    if sb.group_descriptor_size != 32 {
        return Err(Error::invalid("ext4 backend requires classic 32-byte group descriptors"));
    }
    if div_up(sb.block_count, sb.blocks_per_group as u64) > u32::MAX as u64 {
        return Err(Error::invalid("ext4 group count is too large"));
    }
    Ok(())
}

/// An ext4 image opened for a rebuild.
pub struct Ext4Source<S> {
    pub reader: Image<S>,
    pub profile: Superblock,
}

/// An inode that the superblock has room for.
pub open spec fn ranged_inode(sb: Superblock, d: Seq<u8>, number: u32) -> Result<InodeView, Fault> {
    if number == 0 || number > sb.inodes_per_group * sb.groups() {
        fail("ext4 inode "@ + dec(number as int) + " is out of range"@)
    } else {
        inode_of(sb, d, number as int)
    }
}

/// The mapped ranges that hold content.
pub open spec fn mapped(s: Seq<Extent>) -> Seq<(u64, u64, u64)>
    decreases s.len(),
{
    if s.len() == 0 {
        Seq::empty()
    } else if s.last().unwritten {
        mapped(s.drop_last())
    } else {
        mapped(s.drop_last()).push(
            (s.last().logical_block, s.last().physical_block, s.last().length),
        )
    }
}

/// A node as it is read.
pub open spec fn ext4_node(
    number: u32,
    name: Seq<char>,
    x: InodeView,
    payload: PayloadView,
    data_size: u64,
    extents: Seq<(u64, u64, u64)>,
    children: Seq<NodeView>,
) -> NodeView {
    NodeView {
        nid: number as u64,
        original_nid: number as u64,
        parent_nid: 0,
        name,
        mode: x.mode,
        uid: x.uid,
        gid: x.gid,
        payload,
        data_size,
        children,
        layout: 0,
        raw_block: 0,
        modified: false,
        content_changed: false,
        context: x.context,
        context_explicit: false,
        extents,
        erofs_compact_clusters: 0,
    }
}

/// Where the content of a file is: in memory, or in mapped ranges.
pub open spec fn ext4_payload(sb: Superblock, d: Seq<u8>, x: InodeView) -> Result<
    (PayloadView, u64, Seq<(u64, u64, u64)>),
    Fault,
> {
    let has_extents = le16(x.block, 0) == EXT4_EXTENT_MAGIC;
    match if has_extents {
        extents_of(
            d,
            sb.block_size as int,
            x.block,
            le16(x.block, 6) as int,
            le16(x.block, 2) as int,
        )
    } else {
        Ok(Seq::empty())
    } {
        Err(e) => Err(e),
        Ok(found) => if x.mode & 0xf000 == 0x4000 || !has_extents {
            match data_of(d, sb.block_size as int, x) {
                Err(e) => Err(e),
                Ok(data) => Ok((PayloadView::Memory(data), data.len() as u64, mapped(found))),
            }
        } else {
            Ok((PayloadView::Empty, x.size, mapped(found)))
        },
    }
}

/// The tree below an inode.
pub open spec fn ext4_tree(
    sb: Superblock,
    d: Seq<u8>,
    number: u32,
    name: Seq<char>,
    depth: int,
) -> Result<NodeView, Fault>
    decreases MAX_DEPTH + 2 - depth, 0int, 0int,
{
    if depth > MAX_DEPTH {
        fail("directory nesting is too deep"@)
    } else {
        match ranged_inode(sb, d, number) {
            Err(e) => Err(e),
            Ok(x) => match ext4_payload(sb, d, x) {
                Err(e) => Err(e),
                Ok((payload, size, extents)) => if x.mode & 0xf000 != 0x4000 {
                    Ok(ext4_node(number, name, x, payload, size, extents, Seq::empty()))
                } else {
                    match entries_of(sb, d, number as int) {
                        Err(e) => Err(e),
                        Ok(entries) => match ext4_kids(sb, d, entries, number, depth + 1) {
                            Err(e) => Err(e),
                            Ok(children) => Ok(
                                ext4_node(number, name, x, payload, size, extents, children),
                            ),
                        },
                    }
                },
            },
        }
    }
}

/// The trees below the entries of a directory, but for the directory itself
/// and its parent.
pub open spec fn ext4_kids(
    sb: Superblock,
    d: Seq<u8>,
    entries: Seq<RawView>,
    parent: u32,
    depth: int,
) -> Result<Seq<NodeView>, Fault>
    decreases MAX_DEPTH + 2 - depth, 1int, entries.len(),
    when depth <= MAX_DEPTH + 1
{
    if entries.len() == 0 {
        Ok(Seq::empty())
    } else {
        match ext4_kids(sb, d, entries.drop_last(), parent, depth) {
            Err(e) => Err(e),
            Ok(s) => {
                let e = entries.last();
                if e.name == "."@ || e.name == ".."@ {
                    Ok(s)
                } else {
                    match ext4_tree(sb, d, e.inode, e.name, depth) {
                        Err(e) => Err(e),
                        Ok(n) => Ok(s.push(NodeView { parent_nid: parent as u64, ..n })),
                    }
                }
            },
        }
    }
}

/// What fails for the first entries fails for all.
proof fn kids_fail_early(
    sb: Superblock,
    d: Seq<u8>,
    entries: Seq<RawView>,
    parent: u32,
    depth: int,
    i: int,
)
    requires
        0 <= i <= entries.len(),
        depth <= MAX_DEPTH + 1,
        ext4_kids(sb, d, entries.take(i), parent, depth) is Err,
    ensures
        ext4_kids(sb, d, entries, parent, depth) == ext4_kids(
            sb,
            d,
            entries.take(i),
            parent,
            depth,
        ),
    decreases entries.len(),
{
    if i == entries.len() {
        assert(entries.take(i) =~= entries);
    } else {
        assert(entries.drop_last().take(i) =~= entries.take(i));
        kids_fail_early(sb, d, entries.drop_last(), parent, depth, i);
    }
}

fn map_extents(found: &Vec<Extent>) -> (out: Vec<(u64, u64, u64)>)
    ensures
        out@ == mapped(found@),
{
    let mut out: Vec<(u64, u64, u64)> = Vec::new();
    let mut i: usize = 0;
    assert(found@.take(0) =~= Seq::empty());
    while i < found.len()
        invariant
            i <= found@.len(),
            out@ == mapped(found@.take(i as int)),
        decreases found.len() - i,
    {
        let e = found[i];
        proof {
            let t = found@.take(i + 1);
            assert(t.drop_last() =~= found@.take(i as int));
            assert(t.last() == e);
        }
        if !e.unwritten {
            out.push((e.logical_block, e.physical_block, e.length));
        }
        i += 1;
    }
    assert(found@.take(i as int) =~= found@);
    out
}

impl<S: ByteSource> Ext4Source<S> {
    /// The image and its profile are sound, and can be rebuilt.
    pub open spec fn wf(self) -> bool {
        &&& self.reader.wf()
        &&& self.profile.wf()
        &&& rebuildable(self.profile) is Ok
    }

    /// Opens an image for a rebuild.
    pub fn open(reader: Image<S>) -> (r: Result<Ext4Source<S>, Error>)
        requires
            reader.wf(),
        ensures
            match r {
                Ok(s) => s.wf() && s.reader == reader && ext4_editable(reader.disk()) == Ok::<
                    Superblock,
                    Fault,
                >(s.profile),
                Err(e) => ext4_editable(reader.disk()) == Err::<Superblock, Fault>(e@) || (
                reader.faulty() && e is Io),
            },
    {
        if !probe(&reader)? {
            return Err(Error::invalid("input is not ext4"));
        }
        let profile = Superblock::read(&reader)?;
        check_profile(&profile)?;
        Ok(Ext4Source { reader, profile })
    }

    fn inode(&self, number: u32) -> (r: Result<Ext4Inode, Error>)
        requires
            self.wf(),
        ensures
            told(
                self.reader.faulty(),
                r,
                ranged_inode(self.profile, self.reader.disk(), number),
            ),
    {
        let groups = self.profile.group_count();
        assert(self.profile.inodes_per_group * groups <= u32::MAX * u32::MAX) by (nonlinear_arith)
            requires
                self.profile.inodes_per_group <= u32::MAX,
                groups <= u32::MAX,
        ;
        let most = self.profile.inodes_per_group as u64 * groups as u64;
        if number == 0 || number as u64 > most {
            return Err(
                Error::Invalid(with_number("ext4 inode ", number as u64, " is out of range")),
            );
        }
        inode::read(&self.profile, &self.reader, number)
    }

    fn payload(&self, x: &Ext4Inode) -> (r: Result<
        (NodePayload, u64, Vec<(u64, u64, u64)>),
        Error,
    >)
        requires
            self.wf(),
        ensures
            match r {
                Ok((p, n, e)) => ext4_payload(self.profile, self.reader.disk(), x@) == Ok::<
                    (PayloadView, u64, Seq<(u64, u64, u64)>),
                    Fault,
                >((p@, n, e@)),
                Err(e) => ext4_payload(self.profile, self.reader.disk(), x@) == Err::<
                    (PayloadView, u64, Seq<(u64, u64, u64)>),
                    Fault,
                >(e@) || (self.reader.faulty() && e is Io),
            },
    {
        let has_extents = get16(&x.block, 0) == EXT4_EXTENT_MAGIC;
        let mut found: Vec<Extent> = Vec::new();
        if has_extents {
            let depth = get16(&x.block, 6);
            let entries = get16(&x.block, 2) as usize;
            collect_extents(
                &self.profile,
                &self.reader,
                &x.block,
                depth,
                entries,
                &mut found,
            )?;
            proof {
                let all = extents_of(
                    self.reader.disk(),
                    self.profile.block_size as int,
                    x.block@,
                    depth as int,
                    entries as int,
                )->Ok_0;
                assert(Seq::<Extent>::empty() + all =~= all);
            }
        } else {
            assert(found@ =~= Seq::empty());
        }
        let extents = map_extents(&found);
        if x.mode & 0xf000 == 0x4000 || !has_extents {
            let data = inode::read_data(&self.profile, &self.reader, x)?;
            let size = data.len() as u64;
            Ok((NodePayload::Memory(data), size, extents))
        } else {
            Ok((NodePayload::Empty, x.size, extents))
        }
    }

    /// The tree below an inode.
    pub fn tree(&self, number: u32, name: String) -> (r: Result<Node, Error>)
        requires
            self.wf(),
        ensures
            told(
                self.reader.faulty(),
                r,
                ext4_tree(self.profile, self.reader.disk(), number, name@, 0),
            ),
    {
        self.tree_depth(number, name, 0)
    }

    fn tree_depth(&self, number: u32, name: String, depth: u32) -> (r: Result<Node, Error>)
        requires
            self.wf(),
            depth <= MAX_DEPTH + 1,
        ensures
            told(
                self.reader.faulty(),
                r,
                ext4_tree(self.profile, self.reader.disk(), number, name@, depth as int),
            ),
        decreases MAX_DEPTH + 2 - depth, 0int,
    {
        if depth > MAX_DEPTH {
            return Err(Error::invalid("directory nesting is too deep"));
        }
        let x = self.inode(number)?;
        let (payload, data_size, extents) = self.payload(&x)?;
        let children: Vec<Node> = if x.mode & 0xf000 == 0x4000 {
            let entries = dir::read(&self.profile, &self.reader, number)?;
            self.children(&entries, number, depth + 1)?
        } else {
            Vec::new()
        };
        proof {
            if x.mode & 0xf000 != 0x4000 {
                assert(node_views(children@) =~= Seq::empty());
            }
        }
        Ok(
            Node {
                nid: number as u64,
                original_nid: number as u64,
                parent_nid: 0,
                name,
                mode: x.mode,
                uid: x.uid,
                gid: x.gid,
                payload,
                data_size,
                children,
                layout: 0,
                raw_block: 0,
                modified: false,
                content_changed: false,
                context: copy_opt(&x.context),
                context_explicit: false,
                extents,
                erofs_compact_clusters: 0,
            },
        )
    }

    fn children(&self, entries: &Vec<DirEntryRaw>, parent: u32, depth: u32) -> (r: Result<
        Vec<Node>,
        Error,
    >)
        requires
            self.wf(),
            depth <= MAX_DEPTH + 1,
        ensures
            match r {
                Ok(v) => ext4_kids(
                    self.profile,
                    self.reader.disk(),
                    raw_views(entries@),
                    parent,
                    depth as int,
                ) == Ok::<Seq<NodeView>, Fault>(node_views(v@)),
                Err(e) => ext4_kids(
                    self.profile,
                    self.reader.disk(),
                    raw_views(entries@),
                    parent,
                    depth as int,
                ) == Err::<Seq<NodeView>, Fault>(e@) || (self.reader.faulty() && e is Io),
            },
        decreases MAX_DEPTH + 2 - depth, 1int,
    {
        let ghost all = raw_views(entries@);
        let ghost d = self.reader.disk();
        let ghost sb = self.profile;
        let mut out: Vec<Node> = Vec::new();
        let mut i: usize = 0;
        assert(all.take(0) =~= Seq::empty());
        assert(node_views(out@) =~= Seq::empty());
        while i < entries.len()
            invariant
                self.wf(),
                i <= entries@.len(),
                depth <= MAX_DEPTH + 1,
                all == raw_views(entries@),
                d == self.reader.disk(),
                sb == self.profile,
                ext4_kids(sb, d, all.take(i as int), parent, depth as int) == Ok::<
                    Seq<NodeView>,
                    Fault,
                >(node_views(out@)),
            decreases entries.len() - i,
        {
            let ghost next = all.take(i + 1);
            proof {
                assert(next.drop_last() =~= all.take(i as int));
                assert(next.last() == entries@[i as int]@);
            }
            let name = entries[i].name.clone();
            if !same(name.as_str(), ".") && !same(name.as_str(), "..") {
                match self.tree_depth(entries[i].inode, name, depth) {
                    Ok(mut node) => {
                        let ghost read = node@;
                        node.parent_nid = parent as u64;
                        assert(node@ =~= NodeView { parent_nid: parent as u64, ..read });
                        let ghost before = node_views(out@);
                        out.push(node);
                        assert(node_views(out@) =~= before.push(node@));
                    },
                    Err(e) => {
                        proof {
                            if !(self.reader.faulty() && e is Io) {
                                kids_fail_early(sb, d, all, parent, depth as int, i + 1);
                            }
                        }
                        return Err(e);
                    },
                }
            }
            i += 1;
        }
        assert(all.take(i as int) =~= all);
        Ok(out)
    }
}

} // verus!
