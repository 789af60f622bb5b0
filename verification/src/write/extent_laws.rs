//! What reading an extent tree gives back of what was written.
use super::erofs_laws::{field16, field32};
use super::ext4_inode::{
    extent_bytes, extent_head, extent_root, extents_bytes, extents_length, leaf_bytes, leaf_count,
    leaf_extents, leaf_links, leaf_room, leaves_match, links_length, Extents,
};
use super::fresh_laws::holds;
use crate::buf::{bytes16, bytes32, le16, zeros};
use crate::error::Fault;
use crate::fs::ext4::inode::{entry_extents, extents_from, extents_of, leaf_extent, Extent};
use crate::fs::ext4::EXT4_EXTENT_MAGIC;
use crate::image::disk_read;
use crate::math::ceil_div_covers;
use vstd::prelude::*;

verus! {

/// An extent as it is read.
pub open spec fn as_extent(e: (u32, u32, u32)) -> Extent {
    Extent {
        logical_block: e.0 as u64,
        physical_block: e.1 as u64,
        length: e.2 as u64,
        unwritten: false,
    }
}

/// Extents as they are read.
pub open spec fn as_extents(s: Extents) -> Seq<Extent> {
    s.map_values(|e: (u32, u32, u32)| as_extent(e))
}

/// Every extent has a length that does not look unwritten.
pub open spec fn short_extents(s: Extents) -> bool {
    forall|i: int| 0 <= i < s.len() ==> (#[trigger] s[i]).2 < 0x8000
}

proof fn extent_reads_back(node: Seq<u8>, at: int, e: (u32, u32, u32))
    requires
        0 <= at,
        at + 12 <= node.len(),
        node.subrange(at, at + 12) == extent_bytes(e),
        e.2 < 0x8000,
    ensures
        leaf_extent(node, at) == as_extent(e),
{
    let x = extent_bytes(e);
    assert(x.subrange(0, 4) =~= bytes32(e.0));
    assert(x.subrange(4, 6) =~= bytes16(e.2 as u16));
    assert(x.subrange(6, 8) =~= bytes16(0));
    assert(x.subrange(8, 12) =~= bytes32(e.1));
    assert(node.subrange(at, at + 4) =~= x.subrange(0, 4));
    assert(node.subrange(at + 4, at + 6) =~= x.subrange(4, 6));
    assert(node.subrange(at + 6, at + 8) =~= x.subrange(6, 8));
    assert(node.subrange(at + 8, at + 12) =~= x.subrange(8, 12));
    field32(node, at, e.0);
    field16(node, at + 4, e.2 as u16);
    field16(node, at + 6, 0);
    field32(node, at + 8, e.1);
}

proof fn extents_window(s: Extents, i: int)
    requires
        0 <= i < s.len(),
    ensures
        extents_bytes(s).len() == 12 * s.len(),
        extents_bytes(s).subrange(12 * i, 12 * i + 12) == extent_bytes(s[i]),
    decreases s.len(),
{
    let front = s.drop_last();
    extents_length(front);
    extents_length(s);
    let x = extents_bytes(s);
    if i == s.len() - 1 {
        assert(x.subrange(12 * i, 12 * i + 12) =~= extent_bytes(s.last()));
    } else {
        extents_window(front, i);
        assert(front[i] == s[i]);
        assert(x.subrange(12 * i, 12 * i + 12) =~= extents_bytes(front).subrange(
            12 * i,
            12 * i + 12,
        ));
    }
}

/// The fields of the header of a node.
proof fn head_reads_back(node: Seq<u8>, count: int, most: int, depth: u16)
    requires
        12 <= node.len(),
        0 <= count <= 0xffff,
        node.subrange(0, 12) == extent_head(count, most, depth),
    ensures
        le16(node, 0) == EXT4_EXTENT_MAGIC,
        le16(node, 2) == count,
        le16(node, 6) == depth,
{
    let x = extent_head(count, most, depth);
    assert(x.subrange(0, 2) =~= bytes16(EXT4_EXTENT_MAGIC));
    assert(x.subrange(2, 4) =~= bytes16(count as u16));
    assert(x.subrange(6, 8) =~= bytes16(depth));
    assert(node.subrange(0, 2) =~= x.subrange(0, 2));
    assert(node.subrange(2, 4) =~= x.subrange(2, 4));
    assert(node.subrange(6, 8) =~= x.subrange(6, 8));
    field16(node, 0, EXT4_EXTENT_MAGIC);
    field16(node, 2, count as u16);
    field16(node, 6, depth);
}

proof fn leaf_entry(d: Seq<u8>, bs: int, node: Seq<u8>, s: Extents, i: int)
    requires
        0 <= i < s.len(),
        12 + 12 * s.len() <= node.len(),
        node.subrange(12, 12 + 12 * s.len() as int) == extents_bytes(s),
        short_extents(s),
    ensures
        entry_extents(d, bs, node, 0, i) == Ok::<Seq<Extent>, Fault>(seq![as_extent(s[i])]),
{
    extents_window(s, i);
    let at = 12 + i * 12;
    let x = node.subrange(12, 12 + 12 * s.len() as int);
    assert(node.subrange(at, at + 12) =~= x.subrange(12 * i, 12 * i + 12));
    extent_reads_back(node, at, s[i]);
}

proof fn extents_split(s: Extents, i: int)
    requires
        0 <= i < s.len(),
    ensures
        seq![as_extent(s[i])] + as_extents(s.skip(i + 1)) == as_extents(s.skip(i)),
{
    assert(seq![as_extent(s[i])] + as_extents(s.skip(i + 1)) =~= as_extents(s.skip(i)));
}

proof fn leaf_entries(d: Seq<u8>, bs: int, node: Seq<u8>, s: Extents, i: int)
    requires
        0 <= i <= s.len(),
        12 + 12 * s.len() <= node.len(),
        node.subrange(12, 12 + 12 * s.len() as int) == extents_bytes(s),
        short_extents(s),
    ensures
        extents_from(d, bs, node, 0, i, s.len() as int) == Ok::<Seq<Extent>, Fault>(
            as_extents(s.skip(i)),
        ),
    decreases s.len() - i,
{
    if i == s.len() {
        assert(as_extents(s.skip(i)) =~= Seq::empty());
    } else {
        leaf_entry(d, bs, node, s, i);
        leaf_entries(d, bs, node, s, i + 1);
        extents_split(s, i);
    }
}

/// A leaf reads back.
proof fn leaf_reads_back(d: Seq<u8>, bs: int, node: Seq<u8>, s: Extents, most: int)
    requires
        s.len() <= 0xffff,
        12 + 12 * s.len() <= node.len(),
        node.subrange(0, 12) == extent_head(s.len() as int, most, 0),
        node.subrange(12, 12 + 12 * s.len() as int) == extents_bytes(s),
        short_extents(s),
    ensures
        le16(node, 0) == EXT4_EXTENT_MAGIC,
        le16(node, 2) == s.len(),
        le16(node, 6) == 0,
        extents_of(d, bs, node, 0, s.len() as int) == Ok::<Seq<Extent>, Fault>(as_extents(s)),
{
    head_reads_back(node, s.len() as int, most, 0);
    leaf_entries(d, bs, node, s, 0);
    assert(s.skip(0) =~= s);
    assert((node.len() - 12) / 12 >= s.len());
}

proof fn links_window(s: Extents, leaves: Seq<u32>, block: int, n: int, i: int)
    requires
        0 <= i < n <= leaves.len(),
    ensures
        leaf_links(s, leaves, block, n).len() == 12 * n,
        leaf_links(s, leaves, block, n).subrange(12 * i, 12 * i + 12) == bytes32(
            s[i * leaf_room(block)].0,
        ) + bytes32(leaves[i]) + bytes32(0),
    decreases n,
{
    let front = leaf_links(s, leaves, block, n - 1);
    let x = leaf_links(s, leaves, block, n);
    let y = bytes32(s[(n - 1) * leaf_room(block)].0) + bytes32(leaves[n - 1]) + bytes32(0);
    links_length(s, leaves, block, n - 1);
    links_length(s, leaves, block, n);
    assert(x == front + y);
    if i == n - 1 {
        assert(x.subrange(12 * i, 12 * i + 12) =~= y);
    } else {
        links_window(s, leaves, block, n - 1, i);
        assert(x.subrange(12 * i, 12 * i + 12) =~= front.subrange(12 * i, 12 * i + 12));
    }
}

/// The leaves of an extent tree stand in the image.
pub open spec fn leaves_stand(d: Seq<u8>, s: Extents, leaves: Seq<u32>, block: int) -> bool {
    forall|i: int|
        0 <= i < leaves.len() ==> {
            &&& holds(d, (#[trigger] leaves[i]) * block, leaf_bytes(s, block, i))
            &&& leaves[i] * block + block <= d.len()
            &&& leaves[i] * block + block <= u64::MAX
        }
}

/// Where the extents of a leaf stand among all.
pub proof fn leaf_bounds(n: int, block: int, i: int)
    requires
        1024 <= block <= 65536,
        0 <= i < leaf_count(n, block),
        n >= 0,
    ensures
        1 <= leaf_room(block) <= 340,
        12 + 12 * leaf_room(block) <= block,
        0 <= i * leaf_room(block) < n,
        (i + 1) * leaf_room(block) == i * leaf_room(block) + leaf_room(block),
        i + 1 == leaf_count(n, block) ==> n <= (i + 1) * leaf_room(block),
        i + 1 < leaf_count(n, block) ==> (i + 1) * leaf_room(block) < n,
{
    let room = leaf_room(block);
    let count = leaf_count(n, block);
    ceil_div_covers(n, room);
    assert(0 <= i * room < n && (i + 1) * room == i * room + room) by (nonlinear_arith)
        requires
            0 <= i,
            i + 1 <= count,
            count * room < n + room,
            room >= 1,
    ;
    if i + 1 < count {
        assert((i + 1) * room < n) by (nonlinear_arith)
            requires
                i + 2 <= count,
                count * room < n + room,
                room >= 1,
        ;
    } else {
        assert(n <= (i + 1) * room);
    }
}

proof fn leaf_of_tree(d: Seq<u8>, s: Extents, leaves: Seq<u32>, block: int, node: Seq<u8>, i: int)
    requires
        1024 <= block <= 65536,
        leaves_match(s, leaves, block),
        leaves_stand(d, s, leaves, block),
        short_extents(s),
        0 <= i < leaves.len() <= 4,
        node.len() == 60,
        node.subrange(12, 12 + 12 * leaves.len() as int) == leaf_links(
            s,
            leaves,
            block,
            leaves.len() as int,
        ),
    ensures
        entry_extents(d, block, node, 1, i) == Ok::<Seq<Extent>, Fault>(
            as_extents(leaf_extents(s, block, i)),
        ),
{
    let at = 12 + i * 12;
    let n = leaves.len() as int;
    links_window(s, leaves, block, n, i);
    let w = node.subrange(12, 12 + 12 * n);
    let y = bytes32(s[i * leaf_room(block)].0) + bytes32(leaves[i]) + bytes32(0);
    assert(node.subrange(at, at + 12) =~= w.subrange(12 * i, 12 * i + 12));
    assert(y.subrange(4, 8) =~= bytes32(leaves[i]));
    assert(y.subrange(8, 10) =~= bytes16(0));
    assert(node.subrange(at + 4, at + 8) =~= y.subrange(4, 8));
    assert(node.subrange(at + 8, at + 10) =~= y.subrange(8, 10));
    field32(node, at + 4, leaves[i]);
    field16(node, at + 8, 0);
    leaf_bounds(s.len() as int, block, i);
    let e = leaf_extents(s, block, i);
    let x = leaf_bytes(s, block, i);
    let from = leaves[i] * block;
    let child = d.subrange(from, from + block);
    extents_length(e);
    assert(child.subrange(0, 12) =~= d.subrange(from, from + x.len()).subrange(0, 12));
    assert(x.subrange(0, 12) =~= extent_head(e.len() as int, leaf_room(block), 0));
    assert(child.subrange(12, 12 + 12 * e.len() as int) =~= d.subrange(
        from,
        from + x.len(),
    ).subrange(12, 12 + 12 * e.len() as int));
    assert(x.subrange(12, 12 + 12 * e.len() as int) =~= extents_bytes(e));
    assert(short_extents(e)) by {
        assert forall|k: int| 0 <= k < e.len() implies (#[trigger] e[k]).2 < 0x8000 by {
            assert(e[k] == s[i * leaf_room(block) + k]);
        }
    }
    leaf_reads_back(d, block, child, e, leaf_room(block));
    assert(disk_read(d, from, block) == Ok::<Seq<u8>, Fault>(child));
}

proof fn tree_entries(d: Seq<u8>, s: Extents, leaves: Seq<u32>, block: int, node: Seq<u8>, i: int)
    requires
        1024 <= block <= 65536,
        leaves_match(s, leaves, block),
        leaves_stand(d, s, leaves, block),
        short_extents(s),
        0 <= i < leaves.len() <= 4,
        node.len() == 60,
        node.subrange(12, 12 + 12 * leaves.len() as int) == leaf_links(
            s,
            leaves,
            block,
            leaves.len() as int,
        ),
    ensures
        extents_from(d, block, node, 1, i, leaves.len() as int) == Ok::<Seq<Extent>, Fault>(
            as_extents(s.skip(i * leaf_room(block))),
        ),
    decreases leaves.len() - i,
{
    let room = leaf_room(block);
    leaf_bounds(s.len() as int, block, i);
    leaf_of_tree(d, s, leaves, block, node, i);
    let e = leaf_extents(s, block, i);
    if i + 1 < leaves.len() {
        tree_entries(d, s, leaves, block, node, i + 1);
        assert(as_extents(e) + as_extents(s.skip((i + 1) * room)) =~= as_extents(s.skip(i * room)));
    } else {
        assert(extents_from(d, block, node, 1, i + 1, leaves.len() as int) == Ok::<
            Seq<Extent>,
            Fault,
        >(Seq::empty()));
        assert(as_extents(e) + Seq::<Extent>::empty() =~= as_extents(s.skip(i * room)));
    }
}

/// The map of an inode has its fixed length.
pub proof fn map_length(s: Extents, leaves: Seq<u32>, block: int)
    requires
        1024 <= block <= 65536,
        leaves_match(s, leaves, block),
    ensures
        leaves.len() <= 4,
        extent_root(s, leaves, block).len() <= 60,
        leaves.len() == 0 ==> s.len() <= 1,
        extent_root(s, leaves, block).len() == 12 + 12 * (if leaves.len() == 0 {
            s.len()
        } else {
            leaves.len()
        }),
{
    let room = leaf_room(block);
    extents_length(s);
    links_length(s, leaves, block, leaves.len() as int);
    if s.len() > 1 {
        ceil_div_covers(s.len() as int, room);
        let count = leaves.len() as int;
        assert(1 <= count <= 4) by (nonlinear_arith)
            requires
                count * room < s.len() + room,
                count * room >= s.len(),
                1 <= s.len() <= 4 * room,
                room >= 1,
        ;
    }
}

/// The extents of an inode read back, whether they stand in the inode itself
/// or in leaves.
pub proof fn extents_read_back(
    d: Seq<u8>,
    s: Extents,
    leaves: Seq<u32>,
    block: int,
    node: Seq<u8>,
)
    requires
        1024 <= block <= 65536,
        leaves_match(s, leaves, block),
        leaves_stand(d, s, leaves, block),
        short_extents(s),
        node == extent_root(s, leaves, block) + zeros(60 - extent_root(s, leaves, block).len()),
    ensures
        node.len() == 60,
        le16(node, 0) == EXT4_EXTENT_MAGIC,
        extents_of(d, block, node, le16(node, 6) as int, le16(node, 2) as int) == Ok::<
            Seq<Extent>,
            Fault,
        >(as_extents(s)),
{
    map_length(s, leaves, block);
    let root = extent_root(s, leaves, block);
    extents_length(s);
    if leaves.len() == 0 {
        assert(node.subrange(0, 12) =~= extent_head(s.len() as int, 4, 0));
        assert(node.subrange(12, 12 + 12 * s.len() as int) =~= extents_bytes(s));
        leaf_reads_back(d, block, node, s, 4);
    } else {
        let n = leaves.len() as int;
        links_length(s, leaves, block, n);
        assert(node.subrange(0, 12) =~= extent_head(n, 4, 1));
        assert(node.subrange(12, 12 + 12 * n) =~= leaf_links(s, leaves, block, n));
        head_reads_back(node, n, 4, 1);
        tree_entries(d, s, leaves, block, node, 0);
        assert(0 * leaf_room(block) == 0);
        assert(s.skip(0) =~= s);
        assert((node.len() - 12) / 12 == 4);
    }
}

/// The root of a map says whether it holds the extents themselves or names the
/// leaves that do, and how many of them there are.
pub proof fn roots_say_their_form(s: Extents, leaves: Seq<u32>, block: int, node: Seq<u8>)
    requires
        1024 <= block <= 65536,
        leaves_match(s, leaves, block),
        node == extent_root(s, leaves, block) + zeros(60 - extent_root(s, leaves, block).len()),
    ensures
        leaves.len() == if le16(node, 6) == 0 {
            0
        } else {
            le16(node, 2) as int
        },
{
    map_length(s, leaves, block);
    extents_length(s);
    if leaves.len() == 0 {
        assert(node.subrange(0, 12) =~= extent_head(s.len() as int, 4, 0));
        head_reads_back(node, s.len() as int, 4, 0);
    } else {
        let n = leaves.len() as int;
        links_length(s, leaves, block, n);
        assert(node.subrange(0, 12) =~= extent_head(n, 4, 1));
        head_reads_back(node, n, 4, 1);
    }
}

} // verus!
