//! The tree of a fresh ext4 image reads back.
use super::blocks::{served, Volume};
use super::ext4_arrive::{file_is_well_placed, files_spread, spread};
use super::ext4_build::dir_part;
use super::ext4_groups::{Census, RESERVED_INODES};
use super::ext4_images::{arrived, contents_arrived};
use super::ext4_inode::is_short_link;
use super::ext4_laws::{ext4_directories_read_back, kept_label, record_views};
use super::ext4_layout::{all_names_fit, directory_image, records};
use super::ext4_place::Placed;
use super::ext4_read_back::{
    ext4_inodes_read_back, extents_fill, filled, fresh_profile, known_features, listed_inode,
    parts_stand, range_reads_back, spread_facts,
};
use super::ext4_source::{
    ext4_kids, ext4_node, ext4_payload, ext4_tree, mapped, ranged_inode,
};
use super::ext4_space_laws::clear;
use super::extent_laws::{as_extents, extents_read_back, leaves_stand};
use super::fresh_laws::holds;
use super::node::{NodeView, PayloadView};
use super::read_back::listed;
use super::serve_laws::{pieces_make_the_part, serves};
use super::source::MAX_DEPTH;
use crate::buf::{le16, zeros};
use crate::error::Fault;
use crate::fs::ext4::dir::{entries_of, RawView};
use crate::fs::ext4::inode::{data_of, extents_of, inline_link, Extent, InodeView};
use crate::fs::ext4::{Superblock, EXT4_EXTENT_MAGIC};
use crate::math::{ceil_div, ceil_div_covers, least};
use crate::text::padded_text;
use vstd::utf8::encode_utf8;
use vstd::prelude::*;

verus! {

/// A finished image: its nodes are spread, and all of it has arrived.
pub open spec fn finished(
    d: Seq<u8>,
    v: Volume,
    c: Census,
    p: Superblock,
    shared: bool,
    q: Seq<Placed>,
    m: Seq<int>,
    l: Seq<int>,
) -> bool {
    &&& spread(c.x, c.list, q, m, l)
    &&& arrived(d, c, p, shared, q)
    &&& files_serve(d, v, c, fresh_profile(c.x, p, shared), q)
    &&& c.x.total * c.x.block <= d.len()
    &&& c.list.len() + RESERVED_INODES <= u32::MAX
    &&& all_names_fit(c.list)
}

proof fn block_end(b: int, total: int, bs: int)
    requires
        0 <= b,
        b + 1 <= total <= u32::MAX,
        0 < bs <= 65536,
    ensures
        b * bs + bs <= total * bs,
        b * bs + bs <= u64::MAX,
{
    assert(b * bs + bs <= total * bs && b * bs + bs <= u64::MAX) by (nonlinear_arith)
        requires
            0 <= b,
            b + 1 <= total <= u32::MAX,
            0 < bs <= 65536,
    ;
}

/// The leaves of the extent tree of a node stand in the image.
proof fn leaves_are_there(
    d: Seq<u8>,
    v: Volume,
    c: Census,
    p: Superblock,
    shared: bool,
    q: Seq<Placed>,
    m: Seq<int>,
    l: Seq<int>,
    k: int,
)
    requires
        finished(d, v, c, p, shared, q, m, l),
        0 <= k < c.list.len(),
    ensures
        leaves_stand(d, q[k].extents, q[k].leaves, c.x.block as int),
{
    let bs = c.x.block as int;
    spread_facts(c.x, c.list, q, m, l, k);
    assert forall|i: int| 0 <= i < q[k].leaves.len() implies {
        &&& holds(
            d,
            (#[trigger] q[k].leaves[i]) * bs,
            super::ext4_inode::leaf_bytes(q[k].extents, bs, i),
        )
        &&& q[k].leaves[i] * bs + bs <= d.len()
        &&& q[k].leaves[i] * bs + bs <= u64::MAX
    } by {
        assert(clear(c.x.reserved(), q[k].leaves[i] as int, 1));
        block_end(q[k].leaves[i] as int, c.x.total as int, bs);
        reveal(arrived);
    }
}

/// The extents of a node that is mapped by extents read back.
pub proof fn node_extents_read(
    d: Seq<u8>,
    v: Volume,
    c: Census,
    p: Superblock,
    shared: bool,
    q: Seq<Placed>,
    m: Seq<int>,
    l: Seq<int>,
    k: int,
)
    requires
        finished(d, v, c, p, shared, q, m, l),
        0 <= k < c.list.len(),
        !is_short_link(c.list[k]),
    ensures
        ({
            let b = listed_inode(c.x, c.list[k], q[k]).block;
            &&& le16(b, 0) == EXT4_EXTENT_MAGIC
            &&& extents_of(d, c.x.block as int, b, le16(b, 6) as int, le16(b, 2) as int) == Ok::<
                Seq<Extent>,
                Fault,
            >(as_extents(q[k].extents))
        }),
{
    spread_facts(c.x, c.list, q, m, l, k);
    leaves_are_there(d, v, c, p, shared, q, m, l, k);
    extents_read_back(
        d,
        q[k].extents,
        q[k].leaves,
        c.x.block as int,
        listed_inode(c.x, c.list[k], q[k]).block,
    );
}

// ---------------------------------------------------------------------
// Directories
// ---------------------------------------------------------------------
proof fn directory_bits(mode: u16)
    requires
        mode & 0xf000 == 0x4000,
    ensures
        mode & 0x4000 != 0,
        mode & 0xf000 != 0xa000,
{
    assert(mode & 0x4000 != 0 && mode & 0xf000 != 0xa000) by (bit_vector)
        requires
            mode & 0xf000 == 0x4000,
    ;
}

proof fn whole_is_filled(data: Seq<u8>, n: int)
    requires
        data.len() <= n,
    ensures
        filled(data, n) == data,
{
    assert(filled(data, n) =~= data);
}

/// The content of a directory reads back.
proof fn directory_data_reads(
    d: Seq<u8>,
    v: Volume,
    c: Census,
    p: Superblock,
    shared: bool,
    q: Seq<Placed>,
    m: Seq<int>,
    l: Seq<int>,
    k: int,
)
    requires
        finished(d, v, c, p, shared, q, m, l),
        0 <= k < c.list.len(),
        c.list[k].is_dir(),
    ensures
        data_of(d, c.x.block as int, listed_inode(c.x, c.list[k], q[k])) == Ok::<Seq<u8>, Fault>(
            directory_image(c.list[k], c.x.block as int),
        ),
{
    let bs = c.x.block as int;
    let n = c.list[k];
    let x = listed_inode(c.x, n, q[k]);
    directory_bits(n.mode);
    known_features();
    spread_facts(c.x, c.list, q, m, l, k);
    let data = directory_image(n, bs);
    assert(q[k].size == data.len() && q[k].data == data && data.len() <= u32::MAX);
    node_extents_read(d, v, c, p, shared, q, m, l, k);
    assert forall|i: int| 0 <= i < q[k].extents.len() implies holds(
        d,
        (#[trigger] q[k].extents[i]).1 * bs,
        dir_part(data, q[k].extents[i], bs),
    ) by {
        reveal(arrived);
    }
    let to = ceil_div(q[k].size, bs);
    extents_fill(d, bs, q[k].extents, to, data);
    ceil_div_covers(q[k].size, bs);
    whole_is_filled(data, to * bs);
    assert(!inline_link(x));
    if data.len() == 0 {
        assert(data =~= Seq::empty());
    }
}

/// The entries of a directory read back.
pub proof fn directory_entries_read(
    d: Seq<u8>,
    v: Volume,
    c: Census,
    p: Superblock,
    shared: bool,
    q: Seq<Placed>,
    m: Seq<int>,
    l: Seq<int>,
    k: int,
)
    requires
        finished(d, v, c, p, shared, q, m, l),
        0 <= k < c.list.len(),
        c.list[k].is_dir(),
        c.x.block <= 32768,
        listed(c.list, c.list[k]),
        1 <= c.list[k].parent_nid <= u32::MAX,
    ensures
        entries_of(fresh_profile(c.x, p, shared), d, c.list[k].nid as int) == Ok::<Seq<RawView>, Fault>(
            record_views(records(c.list[k]), 0),
        ),
{
    let n = c.list[k];
    directory_bits(n.mode);
    ext4_inodes_read_back(d, c, p, shared, q, m, l, k);
    directory_data_reads(d, v, c, p, shared, q, m, l, k);
    spread_facts(c.x, c.list, q, m, l, k);
    assert forall|i: int| 0 <= i < n.children.len() implies 1 <= (#[trigger] n.children[i]).nid
        <= u32::MAX by {
        assert(listed(c.list, n.children[i]));
        let j = choose|j: int| 0 <= j < c.list.len() && c.list[j] == n.children[i];
        assert(c.list[j].nid >= 1);
    }
    ext4_directories_read_back(n, c.x.block as int);
}

// ---------------------------------------------------------------------
// Files
// ---------------------------------------------------------------------
/// A symbolic link whose target stands in the inode is told apart from a map
/// of extents.
pub open spec fn plain_target(n: NodeView) -> bool {
    is_short_link(n) ==> {
        &&& n.payload !is InlineDir
        &&& !(n.data().len() >= 2 && n.data()[0] == 0x0a && n.data()[1] == 0xf3)
    }
}

proof fn target_is_no_map(data: Seq<u8>)
    requires
        data.len() <= 60,
        !(data.len() >= 2 && data[0] == 0x0a && data[1] == 0xf3),
    ensures
        le16(data + zeros(60 - data.len()), 0) != EXT4_EXTENT_MAGIC,
{
}

/// The node that is read serves what the node that was written serves.
pub open spec fn serves_the_same(v: Volume, n: NodeView, w: Volume, r: NodeView) -> bool {
    forall|c: Seq<u8>| #[trigger] serves(v, n, c) ==> serves(w, r, c)
}

proof fn memory_serves(v: Volume, n: NodeView, w: Volume, r: NodeView)
    requires
        n.payload !is InlineDir,
        n.data().len() == n.data_size,
        r.payload == PayloadView::Memory(n.data()),
        r.data_size == n.data_size,
    ensures
        serves_the_same(v, n, w, r),
{
    assert forall|c: Seq<u8>| #[trigger] serves(v, n, c) implies serves(w, r, c) by {
        assert forall|offset: int, len: int|
            0 <= offset && 0 < len && offset + len <= c.len() implies #[trigger] served(
            w,
            r,
            offset,
            len,
        ) == Ok::<Seq<u8>, Fault>(c.subrange(offset, offset + len)) by {
            assert(served(v, n, offset, len) == Ok::<Seq<u8>, Fault>(
                c.subrange(offset, offset + len),
            ));
        }
    }
}

proof fn part_of_content(v: Volume, n: NodeView, c: Seq<u8>, e: (u32, u32, u32), bs: int)
    requires
        serves(v, n, c),
        0 < bs,
    ensures
        super::ext4_arrive::file_part(v, n, e, bs) == Ok::<Seq<u8>, Fault>(dir_part(c, e, bs)),
{
    let to = least((e.0 + e.2) * bs, n.data_size as int);
    assert(0 <= e.0 * bs <= (e.0 + e.2) * bs) by (nonlinear_arith)
        requires
            0 < bs,
    ;
    pieces_make_the_part(v, n, c, least(e.0 * bs, to), to);
}

/// The node of a file as it is read, as far as its content goes.
pub open spec fn mapped_node(n: NodeView, q: Placed) -> NodeView {
    NodeView { payload: PayloadView::Empty, extents: mapped(as_extents(q.extents)), ..n }
}

/// The files that are mapped by extents serve what they were written from.
#[verifier::opaque]
pub open spec fn files_serve(
    d: Seq<u8>,
    v: Volume,
    c: Census,
    sb: Superblock,
    q: Seq<Placed>,
) -> bool {
    forall|k: int|
        0 <= k < c.list.len() && !c.list[k].is_dir() && !is_short_link(c.list[k])
            ==> serves_the_same(
            v,
            #[trigger] c.list[k],
            Volume::Ext4 { sb, d },
            mapped_node(c.list[k], q[k]),
        )
}

/// What an ext4 image serves of a node rests on its payload and its extents.
pub proof fn like_nodes_serve(
    v: Volume,
    n: NodeView,
    sb: Superblock,
    d: Seq<u8>,
    a: NodeView,
    b: NodeView,
)
    requires
        serves_the_same(v, n, Volume::Ext4 { sb, d }, a),
        a.payload == b.payload,
        a.extents == b.extents,
        a.data_size == b.data_size,
    ensures
        serves_the_same(v, n, Volume::Ext4 { sb, d }, b),
{
    let w = Volume::Ext4 { sb, d };
    assert forall|c: Seq<u8>| #[trigger] serves(v, n, c) implies serves(w, b, c) by {
        assert(serves(w, a, c));
        assert forall|offset: int, len: int|
            0 <= offset && 0 < len && offset + len <= c.len() implies #[trigger] served(
            w,
            b,
            offset,
            len,
        ) == Ok::<Seq<u8>, Fault>(c.subrange(offset, offset + len)) by {
            assert(served(w, a, offset, len) == served(w, b, offset, len));
        }
    }
}

/// Files with blocks of their own serve what they were written from.
pub proof fn own_blocks_serve(
    d: Seq<u8>,
    v: Volume,
    c: Census,
    sb: Superblock,
    q: Seq<Placed>,
    m: Seq<int>,
)
    requires
        c.x.wf(),
        sb.block_size == c.x.block,
        files_spread(c.x, c.list, q, m),
        contents_arrived(d, v, c, q),
    ensures
        files_serve(d, v, c, sb, q),
{
    reveal(files_serve);
    assert forall|k: int|
        0 <= k < c.list.len() && !c.list[k].is_dir() && !is_short_link(
            c.list[k],
        ) implies serves_the_same(
        v,
        #[trigger] c.list[k],
        Volume::Ext4 { sb, d },
        mapped_node(c.list[k], q[k]),
    ) by {
        own_blocks_serve_file(d, v, c, sb, q, m, k);
    }
}

proof fn own_blocks_serve_file(
    d: Seq<u8>,
    v: Volume,
    c: Census,
    sb: Superblock,
    q: Seq<Placed>,
    m: Seq<int>,
    k: int,
)
    requires
        c.x.wf(),
        sb.block_size == c.x.block,
        files_spread(c.x, c.list, q, m),
        contents_arrived(d, v, c, q),
        0 <= k < c.list.len(),
        !c.list[k].is_dir(),
        !is_short_link(c.list[k]),
    ensures
        serves_the_same(v, c.list[k], Volume::Ext4 { sb, d }, mapped_node(c.list[k], q[k])),
{
    let n = c.list[k];
    let bs = c.x.block as int;
    let w = Volume::Ext4 { sb, d };
    let r = mapped_node(n, q[k]);
    let s = q[k].extents;
    file_is_well_placed(c.x, c.list, q, m, k);
    let to = ceil_div(n.data_size as int, bs);
    ceil_div_covers(n.data_size as int, bs);
    assert forall|x: Seq<u8>| #[trigger] serves(v, n, x) implies serves(w, r, x) by {
        assert forall|i: int| 0 <= i < s.len() implies holds(
            d,
            (#[trigger] s[i]).1 * bs,
            dir_part(x, s[i], bs),
        ) by {
            reveal(contents_arrived);
            part_of_content(v, n, x, s[i], bs);
        }
        assert(parts_stand(d, bs, s, x));
        assert forall|offset: int, len: int|
            0 <= offset && 0 < len && offset + len <= x.len() implies #[trigger] served(
            w,
            r,
            offset,
            len,
        ) == Ok::<Seq<u8>, Fault>(x.subrange(offset, offset + len)) by {
            range_reads_back(sb, d, s, x, to, offset, len);
        }
    }
}

/// Where the content of a file is, as it is read.
proof fn file_payload_reads(
    d: Seq<u8>,
    v: Volume,
    c: Census,
    p: Superblock,
    shared: bool,
    q: Seq<Placed>,
    m: Seq<int>,
    l: Seq<int>,
    k: int,
    r: NodeView,
)
    requires
        finished(d, v, c, p, shared, q, m, l),
        0 <= k < c.list.len(),
        !c.list[k].is_dir(),
        plain_target(c.list[k]),
    ensures
        ext4_payload(fresh_profile(c.x, p, shared), d, listed_inode(c.x, c.list[k], q[k])) matches Ok(
            (payload, size, extents),
        ) && size == c.list[k].data_size && (r.payload == payload && r.data_size == size
            && r.extents == extents ==> serves_the_same(
            v,
            c.list[k],
            Volume::Ext4 { sb: fresh_profile(c.x, p, shared), d },
            r,
        )),
{
    let n = c.list[k];
    let bs = c.x.block as int;
    let x = listed_inode(c.x, n, q[k]);
    spread_facts(c.x, c.list, q, m, l, k);
    if is_short_link(n) {
        target_is_no_map(n.data());
        assert(inline_link(x));
        assert(x.block.subrange(0, n.data_size as int) =~= n.data());
        if r.payload == PayloadView::Memory(n.data()) && r.data_size == n.data_size {
            memory_serves(v, n, Volume::Ext4 { sb: fresh_profile(c.x, p, shared), d }, r);
        }
    } else {
        node_extents_read(d, v, c, p, shared, q, m, l, k);
        let sb = fresh_profile(c.x, p, shared);
        assert(serves_the_same(v, n, Volume::Ext4 { sb, d }, mapped_node(n, q[k]))) by {
            reveal(files_serve);
            assert(c.list[k] == n);
        }
        if r.payload is Empty && r.data_size == n.data_size && r.extents == mapped(
            as_extents(q[k].extents),
        ) {
            like_nodes_serve(v, n, sb, d, mapped_node(n, q[k]), r);
        }
    }
}

// ---------------------------------------------------------------------
// The tree
// ---------------------------------------------------------------------
/// What of a tree an ext4 image can keep: directories are read up to a depth,
/// no child is named like a directory itself or its parent, and the target of a
/// short link does not start like a map of extents.
pub open spec fn readable_ext4(n: NodeView, depth: int) -> bool
    decreases n,
{
    &&& depth <= MAX_DEPTH
    &&& plain_target(n)
    &&& !n.is_dir() ==> n.children.len() == 0
    &&& forall|i: int|
        0 <= i < n.children.len() ==> readable_ext4(#[trigger] n.children[i], depth + 1)
            && n.children[i].name != "."@ && n.children[i].name != ".."@
}

/// The tree `r` that is read from the image `w` is the tree `n` that was
/// written from `v`: the same names, modes, owners and content, and the labels
/// that fit into the inodes.
pub open spec fn regained_ext4(
    w: Volume,
    v: Volume,
    inode_size: int,
    r: NodeView,
    n: NodeView,
) -> bool
    decreases n,
{
    &&& r.mode == n.mode
    &&& r.uid == n.uid
    &&& r.gid == n.gid
    &&& r.context == kept_label(n, inode_size)
    &&& !n.is_dir() ==> r.data_size == n.data_size && serves_the_same(v, n, w, r)
    &&& r.children.len() == n.children.len()
    &&& forall|i: int|
        0 <= i < n.children.len() ==> r.children[i].name == (#[trigger] n.children[i]).name
            && regained_ext4(w, v, inode_size, r.children[i], n.children[i])
}

proof fn parents_do_not_matter(
    sb: Superblock,
    d: Seq<u8>,
    v: Volume,
    inode_size: int,
    r: NodeView,
    n: NodeView,
    parent: u64,
)
    requires
        regained_ext4(Volume::Ext4 { sb, d }, v, inode_size, r, n),
    ensures
        regained_ext4(
            Volume::Ext4 { sb, d },
            v,
            inode_size,
            NodeView { parent_nid: parent, ..r },
            n,
        ),
{
    let t = NodeView { parent_nid: parent, ..r };
    if !n.is_dir() {
        like_nodes_serve(v, n, sb, d, r, t);
    }
}

/// The parents of all nodes have numbers that directory records can hold.
pub open spec fn parents_fit(list: Seq<NodeView>) -> bool {
    forall|k: int| 0 <= k < list.len() ==> (#[trigger] list[k]).parent_nid <= u32::MAX
}

proof fn inode_is_ranged(
    d: Seq<u8>,
    v: Volume,
    c: Census,
    p: Superblock,
    shared: bool,
    q: Seq<Placed>,
    m: Seq<int>,
    l: Seq<int>,
    k: int,
)
    requires
        finished(d, v, c, p, shared, q, m, l),
        0 <= k < c.list.len(),
    ensures
        ranged_inode(fresh_profile(c.x, p, shared), d, c.list[k].nid as u32) == Ok::<InodeView, Fault>(
            listed_inode(c.x, c.list[k], q[k]),
        ),
        1 <= c.list[k].nid <= u32::MAX,
{
    spread_facts(c.x, c.list, q, m, l, k);
    assert(1 <= c.list[k].nid <= c.list.len() + RESERVED_INODES);
    ext4_inodes_read_back(d, c, p, shared, q, m, l, k);
    super::ext4_read_back::inode_is_counted(c.x, c.list, p, shared, k);
}

proof fn file_regained(
    d: Seq<u8>,
    v: Volume,
    c: Census,
    p: Superblock,
    shared: bool,
    q: Seq<Placed>,
    m: Seq<int>,
    l: Seq<int>,
    k: int,
    name: Seq<char>,
    depth: int,
)
    requires
        finished(d, v, c, p, shared, q, m, l),
        0 <= k < c.list.len(),
        readable_ext4(c.list[k], depth),
        !c.list[k].is_dir(),
    ensures
        ext4_tree(fresh_profile(c.x, p, shared), d, c.list[k].nid as u32, name, depth) matches Ok(r)
            && r.name == name && regained_ext4(
            Volume::Ext4 { sb: fresh_profile(c.x, p, shared), d },
            v,
            c.x.inode_size as int,
            r,
            c.list[k],
        ),
{
    let n = c.list[k];
    let sb = fresh_profile(c.x, p, shared);
    let x = listed_inode(c.x, n, q[k]);
    inode_is_ranged(d, v, c, p, shared, q, m, l, k);
    let (payload, size, extents) = ext4_payload(sb, d, x)->Ok_0;
    let r = ext4_node(n.nid as u32, name, x, payload, size, extents, Seq::empty());
    file_payload_reads(d, v, c, p, shared, q, m, l, k, r);
}

proof fn directory_regained(
    d: Seq<u8>,
    v: Volume,
    c: Census,
    p: Superblock,
    shared: bool,
    q: Seq<Placed>,
    m: Seq<int>,
    l: Seq<int>,
    k: int,
    name: Seq<char>,
    depth: int,
    kids: Seq<NodeView>,
)
    requires
        finished(d, v, c, p, shared, q, m, l),
        0 <= k < c.list.len(),
        c.x.block <= 32768,
        parents_fit(c.list),
        listed(c.list, c.list[k]),
        readable_ext4(c.list[k], depth),
        c.list[k].is_dir(),
        ext4_kids(
            fresh_profile(c.x, p, shared),
            d,
            record_views(records(c.list[k]), 0),
            c.list[k].nid as u32,
            depth + 1,
        ) == Ok::<Seq<NodeView>, Fault>(kids),
    ensures
        ext4_tree(fresh_profile(c.x, p, shared), d, c.list[k].nid as u32, name, depth) matches Ok(r)
            && r.name == name && r.mode == c.list[k].mode && r.uid == c.list[k].uid && r.gid
            == c.list[k].gid && r.context == kept_label(c.list[k], c.x.inode_size as int)
            && r.children == kids,
{
    let n = c.list[k];
    let sb = fresh_profile(c.x, p, shared);
    inode_is_ranged(d, v, c, p, shared, q, m, l, k);
    directory_bits(n.mode);
    node_extents_read(d, v, c, p, shared, q, m, l, k);
    directory_data_reads(d, v, c, p, shared, q, m, l, k);
    directory_entries_read(d, v, c, p, shared, q, m, l, k);
}

/// The tree below a listed node reads back.
pub proof fn ext4_trees_read_back(
    d: Seq<u8>,
    v: Volume,
    c: Census,
    p: Superblock,
    shared: bool,
    q: Seq<Placed>,
    m: Seq<int>,
    l: Seq<int>,
    n: NodeView,
    name: Seq<char>,
    depth: int,
)
    requires
        finished(d, v, c, p, shared, q, m, l),
        c.x.block <= 32768,
        parents_fit(c.list),
        listed(c.list, n),
        readable_ext4(n, depth),
        0 <= depth,
    ensures
        ext4_tree(fresh_profile(c.x, p, shared), d, n.nid as u32, name, depth) matches Ok(r) && r.name
            == name && regained_ext4(
            Volume::Ext4 { sb: fresh_profile(c.x, p, shared), d },
            v,
            c.x.inode_size as int,
            r,
            n,
        ),
    decreases n, 1int, 0int,
{
    let k = choose|k: int| 0 <= k < c.list.len() && c.list[k] == n;
    if n.is_dir() {
        let count = n.children.len() as int;
        let entries = record_views(records(n), 0);
        let kids = children_read_back(d, v, c, p, shared, q, m, l, n, count, depth);
        assert(entries.take(2 + count) =~= entries);
        directory_regained(d, v, c, p, shared, q, m, l, k, name, depth, kids);
    } else {
        file_regained(d, v, c, p, shared, q, m, l, k, name, depth);
    }
}

proof fn dots_read(n: NodeView)
    ensures
        ({
            let e = record_views(records(n), 0);
            &&& e.len() == n.children.len() + 2
            &&& e[0].name == "."@
            &&& e[1].name == ".."@
        }),
{
    reveal_strlit(".");
    reveal_strlit("..");
    padded_text("."@, 0);
    padded_text(".."@, 0);
    dots_encode();
}

proof fn dots_encode()
    ensures
        encode_utf8("."@) == seq![46u8],
        encode_utf8(".."@) == seq![46u8, 46u8],
{
    reveal_strlit(".");
    reveal_strlit("..");
    assert((46u32 & 0x7F) as u8 == 46u8) by (bit_vector);
    assert('.' as u32 == 46);
    let one = "."@;
    let two = ".."@;
    assert(vstd::utf8::encode_scalar(46u32) =~= seq![46u8]);
    assert(one.drop_first() =~= Seq::empty());
    assert(two.drop_first() =~= one);
    reveal_with_fuel(encode_utf8, 3);
    assert(encode_utf8(one) =~= seq![46u8]);
    assert(encode_utf8(two) =~= seq![46u8, 46u8]);
}

proof fn child_reads(n: NodeView, i: int)
    requires
        0 <= i < n.children.len(),
    ensures
        ({
            let e = record_views(records(n), 0)[2 + i];
            &&& e.inode == n.children[i].nid as u32
            &&& e.name == n.children[i].name
        }),
{
    padded_text(n.children[i].name, 0);
    assert(records(n)[2 + i] == super::ext4_layout::record_at(n, 2 + i));
}

/// The first `count` children of a directory read back.
proof fn children_read_back(
    d: Seq<u8>,
    v: Volume,
    c: Census,
    p: Superblock,
    shared: bool,
    q: Seq<Placed>,
    m: Seq<int>,
    l: Seq<int>,
    n: NodeView,
    count: int,
    depth: int,
) -> (kids: Seq<NodeView>)
    requires
        finished(d, v, c, p, shared, q, m, l),
        c.x.block <= 32768,
        parents_fit(c.list),
        listed(c.list, n),
        readable_ext4(n, depth),
        0 <= depth,
        0 <= count <= n.children.len(),
    ensures
        ext4_kids(
            fresh_profile(c.x, p, shared),
            d,
            record_views(records(n), 0).take(2 + count),
            n.nid as u32,
            depth + 1,
        ) == Ok::<Seq<NodeView>, Fault>(kids),
        kids.len() == count,
        forall|i: int|
            0 <= i < count ==> kids[i].name == (#[trigger] n.children[i]).name && regained_ext4(
                Volume::Ext4 { sb: fresh_profile(c.x, p, shared), d },
                v,
                c.x.inode_size as int,
                kids[i],
                n.children[i],
            ),
    decreases n, 0int, count,
{
    let sb = fresh_profile(c.x, p, shared);
    let entries = record_views(records(n), 0);
    let t = entries.take(2 + count);
    dots_read(n);
    if count == 0 {
        assert(t.drop_last() =~= entries.take(1));
        assert(entries.take(1).drop_last() =~= Seq::empty());
        assert(entries.take(1).last() == entries[0]);
        assert(t.last() == entries[1]);
        assert(ext4_kids(sb, d, Seq::<RawView>::empty(), n.nid as u32, depth + 1) == Ok::<
            Seq<NodeView>,
            Fault,
        >(Seq::empty()));
        assert(ext4_kids(sb, d, entries.take(1), n.nid as u32, depth + 1) == Ok::<
            Seq<NodeView>,
            Fault,
        >(Seq::empty()));
        Seq::empty()
    } else {
        let child = n.children[count - 1];
        let before = children_read_back(d, v, c, p, shared, q, m, l, n, count - 1, depth);
        assert(t.drop_last() =~= entries.take(2 + (count - 1)));
        assert(t.last() == entries[1 + count]);
        child_reads(n, count - 1);
        assert(readable_ext4(child, depth + 1));
        assert(listed(c.list, child));
        ext4_trees_read_back(d, v, c, p, shared, q, m, l, child, child.name, depth + 1);
        let r = ext4_tree(sb, d, child.nid as u32, child.name, depth + 1)->Ok_0;
        let parent = n.nid as u32;
        parents_do_not_matter(sb, d, v, c.x.inode_size as int, r, child, parent as u64);
        let kids = before.push(NodeView { parent_nid: parent as u64, ..r });
        assert forall|i: int| 0 <= i < count implies kids[i].name == (#[trigger] n.children[i]).name
            && regained_ext4(
            Volume::Ext4 { sb, d },
            v,
            c.x.inode_size as int,
            kids[i],
            n.children[i],
        ) by {
            if i < count - 1 {
                assert(kids[i] == before[i]);
            }
        }
        kids
    }
}

} // verus!
