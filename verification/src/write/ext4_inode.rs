//! The inodes and extent trees of a fresh ext4 image.
use super::node::{children_seen, nodes, preorder, ref_views, Node, NodeView};
use crate::buf::{
    bytes16, bytes32, pad_to, push16, push32, push_bytes, zeros,
};
use crate::error::{fail, Error, Fault};
use crate::fs::ext4::selinux::{selinux_name, INDEX_SECURITY, XATTR_MAGIC};
use crate::fs::ext4::EXT4_EXTENT_MAGIC;
use crate::math::{ceil_div, ceil_div_covers, least};
use crate::text::{push_text, texts, with_text};
use vstd::prelude::*;
use vstd::utf8::encode_utf8;

verus! {

/// The flag of inodes that map their content by extents.
pub const INODE_EXTENTS: u32 = 0x80000;

/// The extents of a file: block of the file, block of the image, length.
pub type Extents = Seq<(u32, u32, u32)>;

// ---------------------------------------------------------------------
// Labels
// ---------------------------------------------------------------------
/// The room that a label takes, filled up.
pub open spec fn label_room(context: Seq<char>) -> int {
    ceil_div(encode_utf8(context).len() as int + 1, 4) * 4
}

/// Whether, and if not why, a label cannot stand in an inode.
pub open spec fn label_fits(context: Seq<char>, inode_size: int) -> Result<(), Fault> {
    if inode_size < 160 {
        fail("inode has no room for an inline SELinux xattr"@)
    } else if encode_utf8(context).len() == 0 || encode_utf8(context).len() + 1 > 64 {
        fail("SELinux context is missing or too long"@)
    } else if 28 + label_room(context) > inode_size - 160 {
        fail("inode has no room for an inline SELinux xattr"@)
    } else {
        Ok(())
    }
}

/// What follows the fixed part of an inode with a label: the size of the
/// extra fields, the magic, the entry of the attribute with its name, and
/// at the end the value with a NUL behind it.
pub open spec fn label_area(context: Seq<char>, inode_size: int) -> Seq<u8> {
    let value = encode_utf8(context);
    let room = label_room(context);
    bytes16(28) + zeros(26) + bytes32(XATTR_MAGIC) + seq![7u8, INDEX_SECURITY] + bytes16(
        (inode_size - 160 - room) as u16,
    ) + bytes32(0) + bytes32((value.len() + 1) as u32) + bytes32(0) + selinux_name() + seq![0u8]
        + zeros(inode_size - 184 - room) + value + zeros(room - value.len())
}

/// Builds what follows the fixed part of an inode with a label.
pub fn write_selinux_xattr(context: &str, inode_size: usize) -> (r: Result<Vec<u8>, Error>)
    requires
        inode_size <= 65535,
    ensures
        match r {
            Ok(v) => label_fits(context@, inode_size as int) is Ok && v@ == label_area(
                context@,
                inode_size as int,
            ) && v@.len() == inode_size - 128,
            Err(e) => label_fits(context@, inode_size as int) == Err::<(), Fault>(e@),
        },
{
    if inode_size < 160 {
        return Err(Error::invalid("inode has no room for an inline SELinux xattr"));
    }
    let value = context.as_bytes();
    if value.len() == 0 || value.len() >= 64 {
        return Err(Error::invalid("SELinux context is missing or too long"));
    }
    let room = (value.len() + 1 + 3) / 4 * 4;
    proof {
        ceil_div_covers(value@.len() as int + 1, 4);
    }
    assert(room == label_room(context@));
    if 28 + room > inode_size - 160 {
        return Err(Error::invalid("inode has no room for an inline SELinux xattr"));
    }
    let mut out: Vec<u8> = Vec::new();
    push16(&mut out, 28);
    pad_to(&mut out, 28);
    push32(&mut out, XATTR_MAGIC);
    out.push(7);
    out.push(INDEX_SECURITY);
    push16(&mut out, (inode_size - 160 - room) as u16);
    push32(&mut out, 0);
    push32(&mut out, (value.len() + 1) as u32);
    push32(&mut out, 0);
    let name: [u8; 7] = [115, 101, 108, 105, 110, 117, 120];
    assert(name@ =~= selinux_name());
    push_bytes(&mut out, &name);
    out.push(0);
    assert(out@.len() == 56);
    pad_to(&mut out, inode_size - 128 - room);
    push_bytes(&mut out, value);
    pad_to(&mut out, inode_size - 128);
    assert(out@ =~= label_area(context@, inode_size as int));
    Ok(out)
}

/// What follows the fixed part of the inode of a node.
pub open spec fn inode_tail(n: NodeView, inode_size: int) -> Seq<u8> {
    match n.context {
        Some(c) if label_fits(c, inode_size) is Ok => label_area(c, inode_size),
        _ => zeros(inode_size - 128),
    }
}

/// Why the label of a node is left out of its inode (nothing where it is
/// kept, or where there is none).
pub open spec fn label_loss(n: NodeView, inode_size: int) -> Option<Seq<char>> {
    match n.context {
        Some(c) => match label_fits(c, inode_size) {
            Err(Fault::Invalid(m)) => Some("dropping SELinux context of "@ + n.name + ": "@ + m),
            _ => None,
        },
        None => None,
    }
}

/// The labels that are left out, in the order of the nodes.
pub open spec fn label_losses(s: Seq<NodeView>, inode_size: int) -> Seq<Seq<char>>
    decreases s.len(),
{
    if s.len() == 0 {
        Seq::empty()
    } else {
        let front = label_losses(s.drop_last(), inode_size);
        match label_loss(s.last(), inode_size) {
            Some(t) => front.push(t),
            None => front,
        }
    }
}

/// Tells which labels of a tree an image with inodes of the given size
/// leaves out, and why.
pub fn lost_labels(root: &Node, inode_size: usize) -> (lost: Vec<String>)
    requires
        128 <= inode_size <= 65535,
    ensures
        texts(lost@) == label_losses(preorder(root@), inode_size as int),
{
    let mut list: Vec<&Node> = Vec::new();
    nodes(root, &mut list);
    let ghost s = preorder(root@);
    assert(ref_views(list@) =~= s);
    let mut lost: Vec<String> = Vec::new();
    let mut i: usize = 0;
    assert(s.take(0) =~= Seq::empty());
    assert(texts(lost@) =~= Seq::empty());
    while i < list.len()
        invariant
            128 <= inode_size <= 65535,
            i <= list@.len(),
            ref_views(list@) == s,
            texts(lost@) == label_losses(s.take(i as int), inode_size as int),
        decreases list.len() - i,
    {
        let n = list[i];
        let ghost before = lost@;
        proof {
            let t = s.take(i + 1);
            assert(ref_views(list@)[i as int] == n@);
            assert(t.drop_last() =~= s.take(i as int));
            assert(t.last() == n@);
        }
        match &n.context {
            Some(c) => match write_selinux_xattr(c.as_str(), inode_size) {
                Err(e) => {
                    let mut t = with_text("dropping SELinux context of ", n.name.as_str(), ": ");
                    push_text(&mut t, e.message().as_str());
                    lost.push(t);
                    assert(texts(lost@) =~= texts(before).push(t@));
                },
                Ok(_) => {},
            },
            None => {},
        }
        i += 1;
    }
    assert(s.take(i as int) =~= s);
    lost
}

fn build_tail(node: &Node, inode_size: usize) -> (v: Vec<u8>)
    requires
        128 <= inode_size <= 65535,
    ensures
        v@ == inode_tail(node@, inode_size as int),
        v@.len() == inode_size - 128,
{
    match &node.context {
        Some(c) => match write_selinux_xattr(c.as_str(), inode_size) {
            Ok(v) => {
                return v;
            },
            Err(_) => {},
        },
        None => {},
    }
    crate::buf::zeroed(inode_size - 128)
}

// ---------------------------------------------------------------------
// Extents
// ---------------------------------------------------------------------
/// The header of a node of an extent tree.
pub open spec fn extent_head(count: int, most: int, depth: u16) -> Seq<u8> {
    bytes16(EXT4_EXTENT_MAGIC) + bytes16(count as u16) + bytes16(most as u16) + bytes16(depth)
        + zeros(4)
}

/// An extent as a leaf has it.
pub open spec fn extent_bytes(e: (u32, u32, u32)) -> Seq<u8> {
    bytes32(e.0) + bytes16(e.2 as u16) + bytes16(0) + bytes32(e.1)
}

/// Extents as a leaf has them.
pub open spec fn extents_bytes(s: Extents) -> Seq<u8>
    decreases s.len(),
{
    if s.len() == 0 {
        Seq::empty()
    } else {
        extents_bytes(s.drop_last()) + extent_bytes(s.last())
    }
}

/// The number of extents that a leaf holds.
pub open spec fn leaf_room(block: int) -> int {
    least(340, (block - 12) / 12)
}

/// The number of leaves below an inode: none where the inode itself holds
/// the only extent.
pub open spec fn leaf_count(n: int, block: int) -> int {
    if n <= 1 {
        0
    } else {
        ceil_div(n, leaf_room(block))
    }
}

/// The extents of the leaf with the given index.
pub open spec fn leaf_extents(s: Extents, block: int, i: int) -> Extents {
    s.subrange(i * leaf_room(block), least((i + 1) * leaf_room(block), s.len() as int))
}

/// A leaf.
pub open spec fn leaf_bytes(s: Extents, block: int, i: int) -> Seq<u8> {
    let e = leaf_extents(s, block, i);
    extent_head(e.len() as int, leaf_room(block), 0) + extents_bytes(e)
}

/// The entries of an inode that lead to its leaves.
pub open spec fn leaf_links(s: Extents, leaves: Seq<u32>, block: int, n: int) -> Seq<u8>
    decreases n,
{
    if n <= 0 {
        Seq::empty()
    } else {
        leaf_links(s, leaves, block, n - 1) + (bytes32(s[(n - 1) * leaf_room(block)].0) + bytes32(
            leaves[n - 1],
        ) + bytes32(0))
    }
}

/// The map of an inode, without the zeros that fill it up.
pub open spec fn extent_root(s: Extents, leaves: Seq<u32>, block: int) -> Seq<u8> {
    if leaves.len() == 0 {
        extent_head(s.len() as int, 4, 0) + extents_bytes(s)
    } else {
        extent_head(leaves.len() as int, 4, 1) + leaf_links(
            s,
            leaves,
            block,
            leaves.len() as int,
        )
    }
}

/// The extents and the leaves fit: the inode has room for the leaves, and
/// the leaves for the extents.
pub open spec fn leaves_match(s: Extents, leaves: Seq<u32>, block: int) -> bool {
    &&& s.len() <= 4 * leaf_room(block)
    &&& leaves.len() == leaf_count(s.len() as int, block)
}

/// Extents take twelve bytes each.
pub proof fn extents_length(s: Extents)
    ensures
        extents_bytes(s).len() == 12 * s.len(),
    decreases s.len(),
{
    if s.len() > 0 {
        extents_length(s.drop_last());
    }
}

/// Every leaf has an entry of twelve bytes.
pub proof fn links_length(s: Extents, leaves: Seq<u32>, block: int, n: int)
    requires
        0 <= n,
    ensures
        leaf_links(s, leaves, block, n).len() == 12 * n,
    decreases n,
{
    if n > 0 {
        links_length(s, leaves, block, n - 1);
    }
}

fn push_head(out: &mut Vec<u8>, count: u16, most: u16, depth: u16)
    ensures
        final(out)@ == old(out)@ + extent_head(count as int, most as int, depth),
{
    let ghost before = out@;
    push16(out, EXT4_EXTENT_MAGIC);
    push16(out, count);
    push16(out, most);
    push16(out, depth);
    push32(out, 0);
    assert(bytes32(0) =~= zeros(4)) by {
        crate::buf::le32_of_bytes32(0);
        zero_words();
    }
    assert(out@ =~= before + extent_head(count as int, most as int, depth));
}

proof fn zero_words()
    ensures
        bytes32(0) == zeros(4),
        bytes16(0) == zeros(2),
{
    assert(0u32 >> 8u32 == 0 && 0u32 >> 16u32 == 0 && 0u32 >> 24u32 == 0) by (bit_vector);
    assert(0u16 >> 8u16 == 0) by (bit_vector);
    assert(bytes32(0) =~= zeros(4));
    assert(bytes16(0) =~= zeros(2));
}

/// Writes one extent.
fn push_extent(out: &mut Vec<u8>, e: (u32, u32, u32))
    ensures
        final(out)@ == old(out)@ + extent_bytes(e),
{
    let ghost before = out@;
    push32(out, e.0);
    push16(out, e.2 as u16);
    push16(out, 0);
    push32(out, e.1);
    assert(out@ =~= before + extent_bytes(e));
}

fn push_extents(out: &mut Vec<u8>, s: &Vec<(u32, u32, u32)>, from: usize, to: usize)
    requires
        from <= to <= s@.len(),
    ensures
        final(out)@ == old(out)@ + extents_bytes(s@.subrange(from as int, to as int)),
{
    let ghost before = out@;
    let ghost part = s@.subrange(from as int, to as int);
    let mut i = from;
    assert(part.take(0) =~= Seq::empty());
    assert(before + extents_bytes(part.take(0)) =~= before);
    while i < to
        invariant
            from <= i <= to <= s@.len(),
            part == s@.subrange(from as int, to as int),
            out@ == before + extents_bytes(part.take(i - from)),
        decreases to - i,
    {
        proof {
            let t = part.take(i - from + 1);
            assert(t.drop_last() =~= part.take(i - from));
            assert(t.last() == s@[i as int]);
        }
        push_extent(out, s[i]);
        assert(out@ =~= before + extents_bytes(part.take(i - from + 1)));
        i += 1;
    }
    assert(part.take(i - from) =~= part);
}

/// The number of extents that a leaf holds.
pub fn count_leaf_room(block: usize) -> (n: usize)
    requires
        1024 <= block <= 65536,
    ensures
        n == leaf_room(block as int),
        1 <= n <= 340,
        12 + 12 * n <= block,
{
    let n = (block - 12) / 12;
    if n < 340 {
        n
    } else {
        340
    }
}

/// Builds a leaf.
pub fn build_leaf(s: &Vec<(u32, u32, u32)>, block: usize, i: usize) -> (v: Vec<u8>)
    requires
        1024 <= block <= 65536,
        i * leaf_room(block as int) < s@.len() <= 4 * leaf_room(block as int),
    ensures
        v@ == leaf_bytes(s@, block as int, i as int),
        v@.len() <= block,
{
    let room = count_leaf_room(block);
    proof {
        assert(i * room + room == (i + 1) * room) by (nonlinear_arith);
        assert(i * room <= 0xffff) by (nonlinear_arith)
            requires
                i * room < 4 * room,
                room <= 340,
        ;
        extents_length(leaf_extents(s@, block as int, i as int));
    }
    let from = i * room;
    let to = if s.len() - from < room {
        s.len()
    } else {
        from + room
    };
    let mut out: Vec<u8> = Vec::new();
    push_head(&mut out, (to - from) as u16, room as u16, 0);
    push_extents(&mut out, s, from, to);
    assert(out@ =~= leaf_bytes(s@, block as int, i as int));
    out
}

fn build_root(s: &Vec<(u32, u32, u32)>, leaves: &Vec<u32>, block: usize) -> (v: Vec<u8>)
    requires
        1024 <= block <= 65536,
        leaves_match(s@, leaves@, block as int),
    ensures
        v@ == extent_root(s@, leaves@, block as int),
        v@.len() <= 60,
{
    let room = count_leaf_room(block);
    let mut out: Vec<u8> = Vec::new();
    proof {
        if s@.len() > 1 {
            ceil_div_covers(s@.len() as int, room as int);
            let c = ceil_div(s@.len() as int, room as int);
            assert(c >= 1 && c <= 4) by (nonlinear_arith)
                requires
                    c * room < s@.len() + room,
                    s@.len() <= 4 * room,
                    c * room >= s@.len(),
                    s@.len() > 1,
                    room >= 1,
            ;
        }
        extents_length(s@);
        links_length(s@, leaves@, block as int, leaves@.len() as int);
    }
    if leaves.len() == 0 {
        push_head(&mut out, s.len() as u16, 4, 0);
        push_extents(&mut out, s, 0, s.len());
        assert(s@.subrange(0, s@.len() as int) =~= s@);
        assert(out@ =~= extent_root(s@, leaves@, block as int));
        return out;
    }
    push_head(&mut out, leaves.len() as u16, 4, 1);
    let ghost head = out@;
    let mut i: usize = 0;
    assert(head + leaf_links(s@, leaves@, block as int, 0) =~= head);
    while i < leaves.len()
        invariant
            i <= leaves@.len(),
            leaves@.len() <= 4,
            room == leaf_room(block as int),
            1 <= room <= 340,
            leaves@.len() == ceil_div(s@.len() as int, room as int),
            s@.len() <= 4 * room,
            s@.len() > 1,
            out@ == head + leaf_links(s@, leaves@, block as int, i as int),
        decreases leaves.len() - i,
    {
        proof {
            ceil_div_covers(s@.len() as int, room as int);
            let c = leaves@.len() as int;
            assert(i * room < s@.len()) by (nonlinear_arith)
                requires
                    i + 1 <= c,
                    c * room < s@.len() + room,
                    room >= 1,
            ;
        }
        let ghost before = out@;
        push32(&mut out, s[i * room].0);
        push32(&mut out, leaves[i]);
        push32(&mut out, 0);
        assert(out@ =~= head + leaf_links(s@, leaves@, block as int, i + 1));
        i += 1;
    }
    assert(out@ =~= extent_root(s@, leaves@, block as int));
    out
}

// ---------------------------------------------------------------------
// Inodes
// ---------------------------------------------------------------------
/// Whether the target of a symbolic link stands in the inode itself.
pub open spec fn is_short_link(n: NodeView) -> bool {
    n.mode & 0xf000 == 0xa000 && n.data_size <= 60 && n.data().len() == n.data_size
}

/// Whether the target of a symbolic link stands in the inode itself.
pub fn has_short_target(node: &Node) -> (b: bool)
    ensures
        b == is_short_link(node@),
{
    node.mode & 0xf000 == 0xa000 && node.data_size <= 60 && node.data().len() as u64
        == node.data_size
}

/// The number of directories among nodes.
pub open spec fn dirs_in(s: Seq<NodeView>) -> int
    decreases s.len(),
{
    if s.len() == 0 {
        0
    } else {
        dirs_in(s.drop_last()) + if s.last().is_dir() {
            1int
        } else {
            0
        }
    }
}

/// The links to a node: its own entry, and for a directory that of each
/// directory in it.
pub open spec fn link_count(n: NodeView) -> int {
    if n.is_dir() {
        2 + dirs_in(n.children)
    } else {
        1
    }
}

/// The blocks that extents map.
pub open spec fn blocks_in(s: Extents) -> int
    decreases s.len(),
{
    if s.len() == 0 {
        0
    } else {
        blocks_in(s.drop_last()) + s.last().2
    }
}

/// What an inode counts as used: sectors of 512 bytes.
pub open spec fn sector_count(s: Extents, leaves: int, block: int) -> int {
    (blocks_in(s) + leaves) * (block / 512)
}

/// The inode of a node.
pub open spec fn inode_bytes(
    n: NodeView,
    size: int,
    s: Extents,
    leaves: Seq<u32>,
    block: int,
    inode_size: int,
) -> Seq<u8> {
    let short = is_short_link(n);
    let map = if short {
        n.data()
    } else {
        extent_root(s, leaves, block)
    };
    bytes16(n.mode) + bytes16((n.uid % 0x1_0000) as u16) + bytes32((size % 0x1_0000_0000) as u32) + zeros(16)
        + bytes16((n.gid % 0x1_0000) as u16) + bytes16(link_count(n) as u16) + bytes32(
        if short {
            0
        } else {
            sector_count(s, leaves.len() as int, block) as u32
        },
    ) + bytes32(
        if short {
            0
        } else {
            INODE_EXTENTS
        },
    ) + zeros(4) + map + zeros(60 - map.len()) + zeros(8) + bytes32((size / 0x1_0000_0000) as u32)
        + zeros(8) + bytes16((n.uid / 0x1_0000) as u16) + bytes16((n.gid / 0x1_0000) as u16) + zeros(4)
        + inode_tail(n, inode_size)
}

fn count_links(node: &Node) -> (n: u128)
    ensures
        n == link_count(node@),
{
    if !node.is_dir() {
        return 1;
    }
    let mut dirs: u64 = 0;
    let mut i: usize = 0;
    proof {
        children_seen(*node);
        assert(node@.children.take(0) =~= Seq::empty());
    }
    while i < node.children.len()
        invariant
            i <= node.children@.len() == node@.children.len(),
            forall|k: int|
                0 <= k < node.children@.len() ==> #[trigger] node@.children[k]
                    == node.children@[k]@,
            dirs == dirs_in(node@.children.take(i as int)),
            dirs <= i,
        decreases node.children.len() - i,
    {
        proof {
            let t = node@.children.take(i + 1);
            assert(t.drop_last() =~= node@.children.take(i as int));
            assert(t.last() == node.children@[i as int]@);
        }
        if node.children[i].is_dir() {
            dirs = dirs + 1;
        }
        i += 1;
    }
    assert(node@.children.take(i as int) =~= node@.children);
    2 + dirs as u128
}

/// Counts the blocks that extents map.
fn count_blocks(s: &Vec<(u32, u32, u32)>) -> (n: u64)
    requires
        s@.len() <= 0x1_0000_0000,
    ensures
        n == blocks_in(s@),
        n <= s@.len() * u32::MAX,
{
    let mut n: u64 = 0;
    let mut i: usize = 0;
    assert(s@.take(0) =~= Seq::empty());
    while i < s.len()
        invariant
            i <= s@.len() <= 0x1_0000_0000,
            n == blocks_in(s@.take(i as int)),
            n <= i * u32::MAX,
        decreases s.len() - i,
    {
        proof {
            let t = s@.take(i + 1);
            assert(t.drop_last() =~= s@.take(i as int));
            assert(t.last() == s@[i as int]);
        }
        n = n + s[i].2 as u64;
        i += 1;
    }
    assert(s@.take(i as int) =~= s@);
    n
}

/// Builds the inode of a node.
pub fn build_inode(
    node: &Node,
    size: u64,
    s: &Vec<(u32, u32, u32)>,
    leaves: &Vec<u32>,
    block: usize,
    inode_size: usize,
) -> (v: Vec<u8>)
    requires
        1024 <= block <= 65536,
        128 <= inode_size <= 65535,
        leaves_match(s@, leaves@, block as int),
    ensures
        v@ == inode_bytes(node@, size as int, s@, leaves@, block as int, inode_size as int),
        v@.len() == inode_size,
{
    let short = has_short_target(node);
    let mut map = build_root(s, leaves, block);
    if short {
        map = Vec::new();
        push_bytes(&mut map, node.data());
        assert(map@ =~= node@.data());
    }
    let ghost map_bytes = map@;
    let room = count_leaf_room(block);
    proof {
        let c = leaves@.len();
        if s@.len() > 1 {
            ceil_div_covers(s@.len() as int, room as int);
        }
        assert(s@.len() <= 1360 && c <= 1360);
    }
    let blocks = count_blocks(s) + leaves.len() as u64;
    let per = (block / 512) as u64;
    assert(blocks * per <= 0x10_0000_0000_0000) by (nonlinear_arith)
        requires
            blocks <= 1360 * 0xffff_ffff + 1360,
            per <= 128,
    ;
    let sectors: u32 = if short {
        0
    } else {
        (blocks * per) as u32
    };
    let flags: u32 = if short {
        0
    } else {
        INODE_EXTENTS
    };
    let mut out: Vec<u8> = Vec::new();
    push16(&mut out, node.mode);
    push16(&mut out, (node.uid % 0x1_0000) as u16);
    push32(&mut out, (size % 0x1_0000_0000) as u32);
    pad_to(&mut out, 24);
    push16(&mut out, (node.gid % 0x1_0000) as u16);
    push16(&mut out, count_links(node) as u16);
    push32(&mut out, sectors);
    push32(&mut out, flags);
    pad_to(&mut out, 40);
    push_bytes(&mut out, &map);
    pad_to(&mut out, 100);
    pad_to(&mut out, 108);
    push32(&mut out, (size / 0x1_0000_0000) as u32);
    pad_to(&mut out, 120);
    push16(&mut out, (node.uid / 0x1_0000) as u16);
    push16(&mut out, (node.gid / 0x1_0000) as u16);
    pad_to(&mut out, 128);
    let tail = build_tail(node, inode_size);
    push_bytes(&mut out, &tail);
    assert(out@ =~= inode_bytes(
        node@,
        size as int,
        s@,
        leaves@,
        block as int,
        inode_size as int,
    ));
    out
}

} // verus!
