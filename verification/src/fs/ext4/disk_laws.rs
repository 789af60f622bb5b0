//! What the structures of an ext4 image are, said of the bytes that hold them.
use super::dir::{entries_from, RawView};
use super::inode::{
    descriptor_offset, entry_extents, extents_from, extents_of, inode_fields, inode_offset, Extent,
    InodeView,
};
use super::{superblock_of, Superblock};
use crate::buf::{bytes16, bytes32, le16, le16_stands, le32, le32_stands};
use crate::error::Fault;
use crate::image::disk_read;
use crate::text::text_of;
use vstd::arithmetic::power2::pow2;
use vstd::prelude::*;

verus! {

// ---------------------------------------------------------------------
// Superblocks
// ---------------------------------------------------------------------
/// A superblock is what its bytes say: the magic stands at byte 56; the size of
/// a block is 1024 times the power of two whose exponent stands at byte 24.
pub proof fn superblocks_are_their_bytes(x: Seq<u8>, log: u32, size: u16, sb: Superblock)
    requires
        x.len() == 1024,
        log <= 10,
        sb.block_size == 1024 * pow2(log as nat),
        x.subrange(4, 8) == bytes32((sb.block_count % 0x1_0000_0000) as u32),
        x.subrange(24, 28) == bytes32(log),
        x.subrange(32, 36) == bytes32(sb.blocks_per_group),
        x.subrange(40, 44) == bytes32(sb.inodes_per_group),
        x.subrange(56, 58) == bytes16(0xef53),
        x.subrange(88, 90) == bytes16(sb.inode_size),
        x.subrange(92, 96) == bytes32(sb.compat),
        x.subrange(96, 100) == bytes32(sb.incompat),
        x.subrange(100, 104) == bytes32(sb.ro_compat),
        x.subrange(254, 256) == bytes16(size),
        sb.group_descriptor_size == if size < 32 {
            32
        } else {
            size
        },
        if sb.incompat & 0x80 != 0 {
            x.subrange(336, 340) == bytes32((sb.block_count / 0x1_0000_0000) as u32)
        } else {
            sb.block_count <= u32::MAX
        },
    ensures
        superblock_of(x) == Ok::<Superblock, Fault>(sb),
{
    le32_stands(x, 4, (sb.block_count % 0x1_0000_0000) as u32);
    le32_stands(x, 24, log);
    le32_stands(x, 32, sb.blocks_per_group);
    le32_stands(x, 40, sb.inodes_per_group);
    le16_stands(x, 56, 0xef53);
    le16_stands(x, 88, sb.inode_size);
    le32_stands(x, 92, sb.compat);
    le32_stands(x, 96, sb.incompat);
    le32_stands(x, 100, sb.ro_compat);
    le16_stands(x, 254, size);
    if sb.incompat & 0x80 != 0 {
        le32_stands(x, 336, (sb.block_count / 0x1_0000_0000) as u32);
    }
}

/// Without the magic there is no superblock, nor with blocks that are too large.
pub proof fn other_bytes_are_no_superblock(x: Seq<u8>)
    requires
        x.len() == 1024,
        x[56] != 0x53 || x[57] != 0xef || le32(x, 24) > 10,
    ensures
        superblock_of(x) is Err,
{
}

// ---------------------------------------------------------------------
// Inodes
// ---------------------------------------------------------------------
/// An inode is what its body says.
pub proof fn inodes_are_their_bytes(raw: Seq<u8>, n: InodeView)
    requires
        raw.len() >= 128,
        raw.subrange(0, 2) == bytes16(n.mode),
        raw.subrange(2, 4) == bytes16((n.uid % 0x1_0000) as u16),
        raw.subrange(4, 8) == bytes32((n.size % 0x1_0000_0000) as u32),
        raw.subrange(24, 26) == bytes16((n.gid % 0x1_0000) as u16),
        raw.subrange(32, 36) == bytes32(n.flags),
        raw.subrange(40, 100) == n.block,
        raw.subrange(108, 112) == bytes32((n.size / 0x1_0000_0000) as u32),
        raw.subrange(120, 122) == bytes16((n.uid / 0x1_0000) as u16),
        raw.subrange(122, 124) == bytes16((n.gid / 0x1_0000) as u16),
    ensures
        inode_fields(raw, n.context) == n,
{
    le16_stands(raw, 0, n.mode);
    le16_stands(raw, 2, (n.uid % 0x1_0000) as u16);
    le32_stands(raw, 4, (n.size % 0x1_0000_0000) as u32);
    le16_stands(raw, 24, (n.gid % 0x1_0000) as u16);
    le32_stands(raw, 32, n.flags);
    le32_stands(raw, 108, (n.size / 0x1_0000_0000) as u32);
    le16_stands(raw, 120, (n.uid / 0x1_0000) as u16);
    le16_stands(raw, 122, (n.gid / 0x1_0000) as u16);
}

/// The body of an inode stands in the inode table of its group, whose block the
/// descriptor of the group names. The descriptors stand in the block behind that
/// of the superblock.
pub proof fn inodes_stand_in_tables(
    sb: Superblock,
    d: Seq<u8>,
    group: int,
    index: int,
    low: u32,
    high: u32,
)
    requires
        sb.wf(),
        0 <= group < sb.groups(),
        0 <= index < sb.inodes_per_group,
        d.len() <= u64::MAX,
        ({
            let at = (if sb.block_size == 1024 {
                2048
            } else {
                sb.block_size as int
            }) + group * sb.group_descriptor_size;
            &&& at + sb.group_descriptor_size <= d.len()
            &&& d.subrange(at + 8, at + 12) == bytes32(low)
            &&& if sb.incompat & 0x80 != 0 && sb.group_descriptor_size >= 44 {
                d.subrange(at + 40, at + 44) == bytes32(high)
            } else {
                high == 0
            }
        }),
        (low + 0x1_0000_0000 * high) * sb.block_size + index * sb.inode_size <= u64::MAX,
    ensures
        inode_offset(sb, d, group * sb.inodes_per_group + index + 1) == Ok::<int, Fault>(
            (low + 0x1_0000_0000 * high) * sb.block_size + index * sb.inode_size,
        ),
{
    let ipg = sb.inodes_per_group as int;
    let number = group * ipg + index + 1;
    let n = sb.group_descriptor_size as int;
    vstd::arithmetic::div_mod::lemma_fundamental_div_mod_converse(number - 1, ipg, group, index);
    assert(group * ipg >= 0 && group * n >= 0 && number <= ipg * sb.groups()) by (nonlinear_arith)
        requires
            0 <= group < sb.groups(),
            number == group * ipg + index + 1,
            0 <= index < ipg,
            n >= 0,
    ;
    assert(ipg * group == group * ipg) by (nonlinear_arith);
    let at = descriptor_offset(sb, group);
    let x = d.subrange(at, at + n);
    assert(disk_read(d, at, n) == Ok::<Seq<u8>, Fault>(x));
    assert(x.subrange(8, 12) =~= d.subrange(at + 8, at + 12));
    le32_stands(x, 8, low);
    if sb.incompat & 0x80 != 0 && n >= 44 {
        assert(x.subrange(40, 44) =~= d.subrange(at + 40, at + 44));
        le32_stands(x, 40, high);
    }
}

// ---------------------------------------------------------------------
// Extents
// ---------------------------------------------------------------------
/// An entry of a leaf: the first block in the file, the length, and the first
/// block in the image, its highest bits apart.
pub struct LeafEntry {
    pub logical: u32,
    pub length: u16,
    pub high: u16,
    pub low: u32,
}

impl LeafEntry {
    pub open spec fn bytes(self) -> Seq<u8> {
        bytes32(self.logical) + bytes16(self.length) + bytes16(self.high) + bytes32(self.low)
    }

    /// The extent that the entry describes; with the highest bit of the length
    /// it is not written yet.
    pub open spec fn describes(self, e: Extent) -> bool {
        &&& e.logical_block == self.logical
        &&& e.physical_block == self.low + 0x1_0000_0000 * self.high
        &&& e.unwritten == (self.length >= 0x8000)
        &&& e.length == if self.length >= 0x8000 {
            self.length - 0x8000
        } else {
            self.length as int
        }
    }
}

proof fn leaf_entry_fields(node: Seq<u8>, at: int, e: LeafEntry)
    requires
        0 <= at,
        at + 12 <= node.len(),
        node.subrange(at, at + 12) == e.bytes(),
    ensures
        le32(node, at) == e.logical,
        le16(node, at + 4) == e.length,
        le16(node, at + 6) == e.high,
        le32(node, at + 8) == e.low,
{
    let b = e.bytes();
    assert(b.subrange(0, 4) =~= bytes32(e.logical));
    assert(b.subrange(4, 6) =~= bytes16(e.length));
    assert(b.subrange(6, 8) =~= bytes16(e.high));
    assert(b.subrange(8, 12) =~= bytes32(e.low));
    assert(node.subrange(at, at + 4) =~= b.subrange(0, 4));
    assert(node.subrange(at + 4, at + 6) =~= b.subrange(4, 6));
    assert(node.subrange(at + 6, at + 8) =~= b.subrange(6, 8));
    assert(node.subrange(at + 8, at + 12) =~= b.subrange(8, 12));
    le32_stands(node, at, e.logical);
    le16_stands(node, at + 4, e.length);
    le16_stands(node, at + 6, e.high);
    le32_stands(node, at + 8, e.low);
}

proof fn leaf_entries(
    d: Seq<u8>,
    bs: int,
    node: Seq<u8>,
    s: Seq<LeafEntry>,
    i: int,
) -> (e: Seq<Extent>)
    requires
        12 + 12 * s.len() <= node.len(),
        0 <= i <= s.len(),
        forall|k: int|
            0 <= k < s.len() ==> node.subrange(12 + k * 12, 24 + k * 12) == (#[trigger] s[k]).bytes(),
    ensures
        extents_from(d, bs, node, 0, i, s.len() as int) == Ok::<Seq<Extent>, Fault>(e),
        e.len() == s.len() - i,
        forall|k: int| 0 <= k < e.len() ==> s[i + k].describes(#[trigger] e[k]),
    decreases s.len() - i,
{
    if i == s.len() {
        Seq::empty()
    } else {
        let rest = leaf_entries(d, bs, node, s, i + 1);
        assert(node.subrange(12 + i * 12, 24 + i * 12) == s[i].bytes());
        leaf_entry_fields(node, 12 + i * 12, s[i]);
        let first = entry_extents(d, bs, node, 0, i)->Ok_0;
        assert(first.len() == 1);
        assert(s[i].describes(first[0]));
        let e = first + rest;
        assert forall|k: int| 0 <= k < e.len() implies s[i + k].describes(#[trigger] e[k]) by {
            if k > 0 {
                assert(e[k] == rest[k - 1]);
                assert(s[i + 1 + (k - 1)].describes(rest[k - 1]));
            }
        }
        e
    }
}

/// A leaf of a map holds the extents that its entries describe, in their order.
pub proof fn leaves_hold_their_extents(
    d: Seq<u8>,
    bs: int,
    node: Seq<u8>,
    s: Seq<LeafEntry>,
) -> (e: Seq<Extent>)
    requires
        12 + 12 * s.len() <= node.len(),
        node.subrange(0, 2) == bytes16(0xf30a),
        forall|k: int|
            0 <= k < s.len() ==> node.subrange(12 + k * 12, 24 + k * 12) == (#[trigger] s[k]).bytes(),
    ensures
        extents_of(d, bs, node, 0, s.len() as int) == Ok::<Seq<Extent>, Fault>(e),
        e.len() == s.len(),
        forall|k: int| 0 <= k < e.len() ==> s[k].describes(#[trigger] e[k]),
{
    le16_stands(node, 0, 0xf30a);
    let e = leaf_entries(d, bs, node, s, 0);
    assert forall|k: int| 0 <= k < e.len() implies s[k].describes(#[trigger] e[k]) by {
        assert(s[0 + k].describes(e[k]));
    }
    e
}

/// The extents of all parts, one part behind the other.
pub open spec fn all_of(s: Seq<Seq<Extent>>) -> Seq<Extent>
    decreases s.len(),
{
    if s.len() == 0 {
        Seq::empty()
    } else {
        s[0] + all_of(s.drop_first())
    }
}

/// The entry `i` of a node names the block `b`.
pub open spec fn names_block(node: Seq<u8>, i: int, low: u32, high: u16) -> bool {
    &&& node.subrange(16 + i * 12, 20 + i * 12) == bytes32(low)
    &&& node.subrange(20 + i * 12, 22 + i * 12) == bytes16(high)
}

/// The block that a node names, and that holds `e`.
pub open spec fn block_holds(d: Seq<u8>, bs: int, depth: int, b: int, e: Seq<Extent>) -> bool {
    let x = d.subrange(b * bs, b * bs + bs);
    &&& b * bs + bs <= d.len()
    &&& le16(x, 6) < depth
    &&& extents_of(d, bs, x, le16(x, 6) as int, le16(x, 2) as int) == Ok::<Seq<Extent>, Fault>(e)
}

proof fn inner_entries(
    d: Seq<u8>,
    bs: int,
    node: Seq<u8>,
    depth: int,
    low: Seq<u32>,
    high: Seq<u16>,
    below: Seq<Seq<Extent>>,
    i: int,
)
    requires
        1 <= depth <= 16,
        0 < bs,
        d.len() <= u64::MAX,
        low.len() == high.len() == below.len(),
        12 + 12 * low.len() <= node.len(),
        0 <= i <= low.len(),
        forall|k: int|
            0 <= k < low.len() ==> names_block(node, k, #[trigger] low[k], high[k]) && block_holds(
                d,
                bs,
                depth,
                low[k] + 0x1_0000_0000 * high[k],
                below[k],
            ),
    ensures
        extents_from(d, bs, node, depth, i, low.len() as int) == Ok::<Seq<Extent>, Fault>(
            all_of(below.skip(i)),
        ),
    decreases low.len() - i,
{
    let rest = below.skip(i);
    if i == low.len() {
        assert(rest =~= Seq::empty());
    } else {
        inner_entries(d, bs, node, depth, low, high, below, i + 1);
        assert(names_block(node, i, low[i], high[i]));
        le32_stands(node, 16 + i * 12, low[i]);
        le16_stands(node, 20 + i * 12, high[i]);
        let b = low[i] + 0x1_0000_0000 * high[i];
        assert(b * bs >= 0) by (nonlinear_arith)
            requires
                b >= 0,
                bs > 0,
        ;
        assert(disk_read(d, b * bs, bs) == Ok::<Seq<u8>, Fault>(d.subrange(b * bs, b * bs + bs)));
        assert(entry_extents(d, bs, node, depth, i) == Ok::<Seq<Extent>, Fault>(below[i]));
        assert(rest.drop_first() =~= below.skip(i + 1));
        assert(rest[0] == below[i]);
    }
}

/// A node of a map above its leaves holds what the blocks hold that its entries
/// name, in their order.
pub proof fn nodes_hold_what_is_below(
    d: Seq<u8>,
    bs: int,
    node: Seq<u8>,
    depth: int,
    low: Seq<u32>,
    high: Seq<u16>,
    below: Seq<Seq<Extent>>,
)
    requires
        1 <= depth <= 16,
        0 < bs,
        d.len() <= u64::MAX,
        node.subrange(0, 2) == bytes16(0xf30a),
        low.len() == high.len() == below.len(),
        12 + 12 * low.len() <= node.len(),
        forall|k: int|
            0 <= k < low.len() ==> names_block(node, k, #[trigger] low[k], high[k]) && block_holds(
                d,
                bs,
                depth,
                low[k] + 0x1_0000_0000 * high[k],
                below[k],
            ),
    ensures
        extents_of(d, bs, node, depth, low.len() as int) == Ok::<Seq<Extent>, Fault>(all_of(below)),
{
    le16_stands(node, 0, 0xf30a);
    inner_entries(d, bs, node, depth, low, high, below, 0);
    assert(below.skip(0) =~= below);
}

// ---------------------------------------------------------------------
// Directories
// ---------------------------------------------------------------------
/// A record of a directory: the inode that it names, its own length, the type of
/// the file, and the name.
pub struct RecordView {
    pub inode: u32,
    pub length: u16,
    pub kind: u8,
    pub name: Seq<u8>,
}

impl RecordView {
    /// The record without what fills it up.
    pub open spec fn bytes(self) -> Seq<u8> {
        bytes32(self.inode) + bytes16(self.length) + seq![self.name.len() as u8, self.kind]
            + self.name
    }
}

/// The records stand one behind the other from `at` on, and fill the rest.
pub open spec fn records_stand(x: Seq<u8>, at: int, s: Seq<RecordView>) -> bool
    decreases s.len(),
{
    if s.len() == 0 {
        at == x.len()
    } else {
        let n = 8 + s[0].name.len();
        &&& s[0].name.len() <= 255
        &&& n <= s[0].length
        &&& at + s[0].length <= x.len()
        &&& x.subrange(at, at + n) == s[0].bytes()
        &&& records_stand(x, at + s[0].length, s.drop_first())
    }
}

/// The entries of records: those that name an inode.
pub open spec fn named_entries(s: Seq<RecordView>) -> Seq<RawView>
    decreases s.len(),
{
    if s.len() == 0 {
        Seq::empty()
    } else if s[0].inode == 0 {
        named_entries(s.drop_first())
    } else {
        seq![
            RawView { inode: s[0].inode, file_type: s[0].kind, name: text_of(s[0].name) },
        ] + named_entries(s.drop_first())
    }
}

proof fn record_fields(x: Seq<u8>, at: int, r: RecordView)
    requires
        0 <= at,
        r.name.len() <= 255,
        at + 8 + r.name.len() <= x.len(),
        x.subrange(at, at + 8 + r.name.len()) == r.bytes(),
    ensures
        le32(x, at) == r.inode,
        le16(x, at + 4) == r.length,
        x[at + 6] == r.name.len(),
        x[at + 7] == r.kind,
        x.subrange(at + 8, at + 8 + r.name.len()) == r.name,
{
    let b = r.bytes();
    let k = seq![r.name.len() as u8, r.kind];
    four_parts(bytes32(r.inode), bytes16(r.length), k, r.name);
    assert(x.subrange(at, at + 4) =~= b.subrange(0, 4));
    assert(x.subrange(at + 4, at + 6) =~= b.subrange(4, 6));
    assert(b.subrange(6, 8)[0] == b[6] && b.subrange(6, 8)[1] == b[7]);
    assert(x[at + 6] == b[6]);
    assert(x[at + 7] == b[7]);
    assert(x.subrange(at + 8, at + 8 + r.name.len()) =~= b.subrange(8, b.len() as int));
    le32_stands(x, at, r.inode);
    le16_stands(x, at + 4, r.length);
}

proof fn four_parts(a: Seq<u8>, b: Seq<u8>, c: Seq<u8>, e: Seq<u8>)
    requires
        a.len() == 4,
        b.len() == 2,
        c.len() == 2,
    ensures
        ({
            let x = a + b + c + e;
            &&& x.len() == 8 + e.len()
            &&& x.subrange(0, 4) == a
            &&& x.subrange(4, 6) == b
            &&& x.subrange(6, 8) == c
            &&& x.subrange(8, x.len() as int) == e
        }),
{
}

/// The entries of a directory are those of its records that name an inode, with
/// the names and types that the records have, in their order.
pub proof fn directories_are_their_records(x: Seq<u8>, at: int, s: Seq<RecordView>)
    requires
        0 <= at,
        records_stand(x, at, s),
    ensures
        entries_from(x, at) == Ok::<Seq<RawView>, Fault>(named_entries(s)),
    decreases s.len(),
{
    if s.len() > 0 {
        record_fields(x, at, s[0]);
        directories_are_their_records(x, at + s[0].length, s.drop_first());
    }
}

} // verus!
