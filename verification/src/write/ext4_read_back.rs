//! A fresh ext4 image reads back as the tree that was written.
use super::blocks::{ext4_piece, ext4_range, extent_is_there, extent_with};
use super::erofs_laws::{field16, field32, parts_of_parts};
use super::ext4_arrive::{
    descriptors_length, ext4_super_length, inode_group, inode_is_in_its_table, inode_length,
    node_spread, spread,
};
use super::ext4_build::{dir_part, inode_is_inside, inode_offset, well_numbered};
use super::ext4_groups::{
    descriptor, descriptors, ext4_super, group_bounds, Census, Geometry, COMPAT_RESIZE_INODE,
    INCOMPAT, RO_GDT_CSUM, RO_SHARED_BLOCKS, RO_SPARSE_SUPER,
};
use super::ext4_images::arrived;
use super::ext4_inode::{inode_bytes, is_short_link, leaves_match, Extents, INODE_EXTENTS};
use super::ext4_laws::{
    inode_fields_read_back, inode_labels_read_back, inode_map, inode_splits, kept_label,
};
use super::ext4_place::Placed;
use super::ext4_source::mapped;
use super::ext4_space_laws::consecutive;
use super::extent_laws::{as_extent, as_extents};
use super::fresh::log2;
use super::fresh_laws::holds;
use super::image_laws::log2_of_pow2;
use super::node::NodeView;
use crate::buf::{bytes16, bytes32, le16, le32, splice, zeros};
use crate::error::Fault;
use crate::fs::ext4::inode::{
    descriptor_offset, inode_fields, inode_of, label_of, table_block, with_extent, with_extents,
    Extent, InodeView,
};
use crate::fs::ext4::{superblock, superblock_of, Superblock, EXT4_64BIT, EXT4_MAGIC};
use crate::image::disk_read;
use crate::math::{ceil_div, least};
use vstd::arithmetic::power2::pow2;
use vstd::prelude::*;

verus! {

// ---------------------------------------------------------------------
// The superblock
// ---------------------------------------------------------------------
/// The superblock of a fresh image, as it is read.
pub open spec fn fresh_profile(x: Geometry, p: Superblock, shared: bool) -> Superblock {
    Superblock {
        block_size: x.block,
        inode_size: x.inode_size as u16,
        blocks_per_group: x.blocks_per_group as u32,
        inodes_per_group: x.inodes_per_group as u32,
        group_descriptor_size: 32,
        block_count: x.total,
        compat: p.compat & !COMPAT_RESIZE_INODE,
        incompat: INCOMPAT,
        ro_compat: fresh_flags(p, shared),
    }
}

/// The features of a fresh image that do not matter to readers.
pub open spec fn fresh_flags(p: Superblock, shared: bool) -> u32 {
    if shared {
        (p.ro_compat & !(RO_SHARED_BLOCKS | RO_GDT_CSUM | RO_SPARSE_SUPER)) | RO_SHARED_BLOCKS
    } else {
        p.ro_compat & !(RO_SHARED_BLOCKS | RO_GDT_CSUM | RO_SPARSE_SUPER)
    }
}

proof fn super_front(
    a: Seq<u8>,
    total: Seq<u8>,
    b: Seq<u8>,
    log: Seq<u8>,
    bpg: Seq<u8>,
    ipg: Seq<u8>,
    rest: Seq<u8>,
)
    requires
        a.len() == 4,
        total.len() == 4,
        b.len() == 16,
        log.len() == 4,
        bpg.len() == 4,
        ipg.len() == 4,
    ensures
        ({
            let x = a + total + b + log + log + bpg + bpg + ipg + rest;
            &&& x.subrange(4, 8) == total
            &&& x.subrange(24, 28) == log
            &&& x.subrange(32, 36) == bpg
            &&& x.subrange(40, 44) == ipg
            &&& x.skip(44) == rest
        }),
{
}

proof fn super_back(
    a: Seq<u8>,
    magic: Seq<u8>,
    b: Seq<u8>,
    size: Seq<u8>,
    c: Seq<u8>,
    compat: Seq<u8>,
    incompat: Seq<u8>,
    ro: Seq<u8>,
    d: Seq<u8>,
    desc: Seq<u8>,
)
    requires
        a.len() == 12,
        magic.len() == 2,
        b.len() == 30,
        size.len() == 2,
        c.len() == 2,
        compat.len() == 4,
        incompat.len() == 4,
        ro.len() == 4,
        d.len() == 150,
        desc.len() == 2,
    ensures
        ({
            let x = a + magic + b + size + c + compat + incompat + ro + d + desc;
            &&& x.len() == 212
            &&& x.subrange(12, 14) == magic
            &&& x.subrange(44, 46) == size
            &&& x.subrange(48, 52) == compat
            &&& x.subrange(52, 56) == incompat
            &&& x.subrange(56, 60) == ro
            &&& x.subrange(210, 212) == desc
        }),
{
}

#[verifier::rlimit(60)]
proof fn ext4_super_parts(c: Census, p: Superblock, shared: bool)
    ensures
        ({
            let x = ext4_super(c, p, shared);
            let log = (log2(c.x.block as int) - 10) as u32;
            let ro = fresh_flags(p, shared);
            &&& x.len() == 256
            &&& x.subrange(4, 8) == bytes32(c.x.total as u32)
            &&& x.subrange(24, 28) == bytes32(log)
            &&& x.subrange(32, 36) == bytes32(c.x.blocks_per_group as u32)
            &&& x.subrange(40, 44) == bytes32(c.x.inodes_per_group as u32)
            &&& x.subrange(56, 58) == bytes16(EXT4_MAGIC)
            &&& x.subrange(88, 90) == bytes16(c.x.inode_size as u16)
            &&& x.subrange(92, 96) == bytes32(p.compat & !COMPAT_RESIZE_INODE)
            &&& x.subrange(96, 100) == bytes32(INCOMPAT)
            &&& x.subrange(100, 104) == bytes32(ro)
            &&& x.subrange(254, 256) == bytes16(32)
        }),
{
    let x = ext4_super(c, p, shared);
    let log = bytes32((log2(c.x.block as int) - 10) as u32);
    let ro = bytes32(fresh_flags(p, shared));
    let a = bytes32(c.total_inodes() as u32);
    let total = bytes32(c.x.total as u32);
    let b = zeros(4) + bytes32(c.free_blocks() as u32) + bytes32(c.free_inodes() as u32)
        + bytes32(c.x.first() as u32);
    let bpg = bytes32(c.x.blocks_per_group as u32);
    let ipg = bytes32(c.x.inodes_per_group as u32);
    let mid = zeros(18) + bytes32(1) + zeros(4) + bytes32(11);
    let size = bytes16(c.x.inode_size as u16);
    let compat = bytes32(p.compat & !COMPAT_RESIZE_INODE);
    let back = zeros(12) + bytes16(EXT4_MAGIC) + mid + size + zeros(2) + compat + bytes32(INCOMPAT)
        + ro + zeros(150) + bytes16(32);
    let front = a + total + b + log + log + bpg + bpg + ipg;
    super_is_joined(
        a,
        total,
        zeros(4),
        bytes32(c.free_blocks() as u32),
        bytes32(c.free_inodes() as u32),
        zeros(4),
        log + log + bpg + bpg + ipg,
        zeros(12) + bytes16(EXT4_MAGIC),
        zeros(18),
        bytes32(1),
        zeros(4),
        bytes32(11),
        size + zeros(2) + compat + bytes32(INCOMPAT) + ro + zeros(150) + bytes16(32),
    );
    assert(x =~= front + back);
    super_front(a, total, b, log, bpg, ipg, back);
    super_back(
        zeros(12),
        bytes16(EXT4_MAGIC),
        mid,
        size,
        zeros(2),
        compat,
        bytes32(INCOMPAT),
        ro,
        zeros(150),
        bytes16(32),
    );
    assert(x.skip(44) == back);
    assert(x.subrange(56, 58) =~= back.subrange(12, 14));
    assert(x.subrange(88, 90) =~= back.subrange(44, 46));
    assert(x.subrange(92, 96) =~= back.subrange(48, 52));
    assert(x.subrange(96, 100) =~= back.subrange(52, 56));
    assert(x.subrange(100, 104) =~= back.subrange(56, 60));
    assert(x.subrange(254, 256) =~= back.subrange(210, 212));
}

proof fn super_is_joined(
    a: Seq<u8>,
    b: Seq<u8>,
    c: Seq<u8>,
    d: Seq<u8>,
    e: Seq<u8>,
    f: Seq<u8>,
    g: Seq<u8>,
    h: Seq<u8>,
    i: Seq<u8>,
    j: Seq<u8>,
    k: Seq<u8>,
    l: Seq<u8>,
    m: Seq<u8>,
)
    ensures
        a + b + c + d + e + f + g + h + i + j + k + l + m == a + b + (c + d + e + f) + g + (h + (i
            + j + k + l) + m),
{
    assert(a + b + c + d + e + f + g + h + i + j + k + l + m =~= a + b + (c + d + e + f) + g + (h + (
    i + j + k + l) + m));
}

/// The fields that stand in a fresh superblock.
pub open spec fn super_fields(x: Seq<u8>, g: Geometry, p: Superblock, shared: bool) -> bool {
    &&& le32(x, 4) == g.total as u32
    &&& le32(x, 24) == (log2(g.block as int) - 10) as u32
    &&& le32(x, 32) == g.blocks_per_group as u32
    &&& le32(x, 40) == g.inodes_per_group as u32
    &&& le16(x, 56) == EXT4_MAGIC
    &&& le16(x, 88) == g.inode_size as u16
    &&& le32(x, 92) == p.compat & !COMPAT_RESIZE_INODE
    &&& le32(x, 96) == INCOMPAT
    &&& le32(x, 100) == fresh_flags(p, shared)
    &&& le16(x, 254) == 32
}

proof fn super_fields_stand(c: Census, p: Superblock, shared: bool)
    ensures
        super_fields(ext4_super(c, p, shared), c.x, p, shared),
{
    let s = ext4_super(c, p, shared);
    ext4_super_parts(c, p, shared);
    let log = (log2(c.x.block as int) - 10) as u32;
    let ro = fresh_flags(p, shared);
    field32(s, 4, c.x.total as u32);
    field32(s, 24, log);
    field32(s, 32, c.x.blocks_per_group as u32);
    field32(s, 40, c.x.inodes_per_group as u32);
    field16(s, 56, EXT4_MAGIC);
    field16(s, 88, c.x.inode_size as u16);
    field32(s, 92, p.compat & !COMPAT_RESIZE_INODE);
    field32(s, 96, INCOMPAT);
    field32(s, 100, ro);
    field16(s, 254, 32);
}

proof fn super_fields_stay(
    x: Seq<u8>,
    s: Seq<u8>,
    g: Geometry,
    p: Superblock,
    shared: bool,
)
    requires
        super_fields(s, g, p, shared),
        s.len() == 256,
        256 <= x.len(),
        x.take(256) == s,
    ensures
        super_fields(x, g, p, shared),
{
    assert forall|i: int| 0 <= i < 256 implies #[trigger] x[i] == s[i] by {
        assert(x.take(256)[i] == x[i]);
    }
}

proof fn super_fields_read(x: Seq<u8>, g: Geometry, p: Superblock, shared: bool, bits: nat)
    requires
        super_fields(x, g, p, shared),
        g.wf(),
        10 <= bits <= 16,
        g.block == pow2(bits),
    ensures
        superblock_of(x) == Ok::<Superblock, Fault>(fresh_profile(g, p, shared)),
{
    log2_of_pow2(bits);
    known_features();
    assert(1024 * pow2((bits - 10) as nat) == pow2(bits)) by {
        vstd::arithmetic::power2::lemma_pow2_adds(10, (bits - 10) as nat);
        vstd::arithmetic::power2::lemma2_to64();
    }
}

/// Reading the superblock of a fresh image gives back the sizes that it was
/// laid out by.
pub proof fn ext4_superblocks_read_back(
    d: Seq<u8>,
    c: Census,
    p: Superblock,
    shared: bool,
    bits: nat,
)
    requires
        c.x.wf(),
        10 <= bits <= 16,
        c.x.block == pow2(bits),
        holds(d, 1024, ext4_super(c, p, shared)),
        2048 <= d.len(),
    ensures
        superblock(d) == Ok::<Superblock, Fault>(fresh_profile(c.x, p, shared)),
{
    let s = ext4_super(c, p, shared);
    let x = d.subrange(1024, 2048);
    ext4_super_length(c, p, shared);
    super_fields_stand(c, p, shared);
    assert(x.take(256) =~= d.subrange(1024, 1024int + s.len()));
    super_fields_stay(x, s, c.x, p, shared);
    super_fields_read(x, c.x, p, shared, bits);
}

/// What the feature flags of a fresh image say.
pub proof fn known_features()
    ensures
        INCOMPAT & EXT4_64BIT == 0,
        INODE_EXTENTS & 0x80000 != 0,
        0u32 & 0x80000 == 0,
{
    assert(0x42u32 & 0x80u32 == 0) by (bit_vector);
    assert(0x80000u32 & 0x80000u32 != 0) by (bit_vector);
    assert(0u32 & 0x80000u32 == 0) by (bit_vector);
}

// ---------------------------------------------------------------------
// Inodes
// ---------------------------------------------------------------------
proof fn descriptor_window(c: Census, n: int, g: int)
    requires
        0 <= g < n,
    ensures
        descriptors(c, n).len() == 32 * n,
        descriptors(c, n).subrange(32 * g, 32 * g + 32) == descriptor(c, g),
    decreases n,
{
    descriptors_length(c, n - 1);
    descriptors_length(c, n);
    let x = descriptors(c, n);
    if g == n - 1 {
        assert(x.subrange(32 * g, 32 * g + 32) =~= descriptor(c, g));
    } else {
        descriptor_window(c, n - 1, g);
        assert(x.subrange(32 * g, 32 * g + 32) =~= descriptors(c, n - 1).subrange(
            32 * g,
            32 * g + 32,
        ));
    }
}

proof fn descriptor_names_the_table(c: Census, g: int)
    ensures
        le32(descriptor(c, g), 8) == c.x.table(g) as u32,
        descriptor(c, g).len() == 32,
{
    let x = descriptor(c, g);
    assert(x.subrange(8, 12) =~= bytes32(c.x.table(g) as u32));
    field32(x, 8, c.x.table(g) as u32);
}

proof fn descriptor_reads(d: Seq<u8>, sb: Superblock, desc: Seq<u8>, g: int, y: Seq<u8>, table: u32)
    requires
        1024 <= sb.block_size <= 65536,
        sb.group_descriptor_size == 32,
        sb.incompat == INCOMPAT,
        0 <= g <= u32::MAX,
        32 * g + 32 <= desc.len(),
        holds(d, descriptor_offset(sb, 0), desc),
        desc.subrange(32 * g, 32 * g + 32) == y,
        le32(y, 8) == table,
    ensures
        disk_read(d, descriptor_offset(sb, g), 32) == Ok::<Seq<u8>, Fault>(y),
        table_block(sb, y) == table,
{
    known_features();
    parts_of_parts(d, descriptor_offset(sb, 0), desc, 32 * g, y);
}

/// The table of a group is found through its descriptor.
proof fn table_is_found(d: Seq<u8>, c: Census, p: Superblock, shared: bool, g: int)
    requires
        c.x.wf(),
        0 <= g < c.x.groups() <= u32::MAX,
        0 <= c.x.table(g) <= u32::MAX,
        holds(d, c.x.descriptors_at(), descriptors(c, c.x.groups())),
    ensures
        disk_read(d, descriptor_offset(fresh_profile(c.x, p, shared), g), 32) == Ok::<Seq<u8>, Fault>(
            descriptor(c, g),
        ),
        table_block(fresh_profile(c.x, p, shared), descriptor(c, g)) == c.x.table(g),
{
    descriptor_window(c, c.x.groups(), g);
    descriptor_names_the_table(c, g);
    descriptor_reads(
        d,
        fresh_profile(c.x, p, shared),
        descriptors(c, c.x.groups()),
        g,
        descriptor(c, g),
        c.x.table(g) as u32,
    );
}

/// The inode of a listed node is found through its descriptor.
pub proof fn inode_is_found(d: Seq<u8>, c: Census, p: Superblock, shared: bool, k: int)
    requires
        c.x.wf(),
        c.x.roomy(),
        well_numbered(c.list, c.x),
        0 <= k < c.list.len(),
        holds(d, c.x.descriptors_at(), descriptors(c, c.x.groups())),
    ensures
        crate::fs::ext4::inode::inode_offset(
            fresh_profile(c.x, p, shared),
            d,
            c.list[k].nid as int,
        ) == Ok::<int, Fault>(inode_offset(c.x, c.list[k].nid)),
        inode_offset(c.x, c.list[k].nid) + c.x.inode_size <= 0x1_0000_0000_0000,
        0 <= inode_offset(c.x, c.list[k].nid),
{
    let x = c.x;
    let nid = c.list[k].nid;
    inode_is_counted(x, c.list, p, shared, k);
    groups_are_few(x);
    inode_is_in_its_table(x, c.list, k);
    let g = inode_group(x, nid);
    group_bounds(x, g);
    table_is_found(d, c, p, shared, g);
    end_is_near((x.start(g) + x.overhead()) as int, x.block as int);
    tables_are_positive(x.table(g), x.block as int);
}

proof fn end_is_near(end: int, bs: int)
    requires
        0 <= end <= 0xffff_ffff,
        0 < bs <= 65536,
    ensures
        end * bs <= 0x1_0000_0000_0000,
{
    assert(end * bs <= 0x1_0000_0000_0000) by (nonlinear_arith)
        requires
            0 <= end <= 0xffff_ffff,
            0 < bs <= 65536,
    ;
}

proof fn tables_are_positive(table: int, bs: int)
    requires
        0 <= table,
        0 < bs,
    ensures
        0 <= table * bs,
{
    assert(0 <= table * bs) by (nonlinear_arith)
        requires
            0 <= table,
            0 < bs,
    ;
}

/// The inode of a listed node is one that the superblock has room for.
pub proof fn inode_is_counted(
    x: Geometry,
    list: Seq<NodeView>,
    p: Superblock,
    shared: bool,
    k: int,
)
    requires
        x.wf(),
        well_numbered(list, x),
        0 <= k < list.len(),
    ensures
        1 <= list[k].nid <= fresh_profile(x, p, shared).inodes_per_group * fresh_profile(x, p, shared).groups(),
{
    let sb = fresh_profile(x, p, shared);
    inode_is_inside(x, list, k);
    groups_are_few(x);
    assert(x.groups() * x.inodes_per_group == sb.inodes_per_group * sb.groups()) by (nonlinear_arith)
        requires
            x.groups() == sb.groups(),
            x.inodes_per_group == sb.inodes_per_group,
    ;
}

proof fn groups_are_few(x: Geometry)
    requires
        x.wf(),
    ensures
        0 <= x.groups() <= u32::MAX,
{
    group_bounds_all(x.total as int, x.blocks_per_group as int);
}

proof fn group_bounds_all(total: int, per: int)
    requires
        1 <= total <= u32::MAX,
        1 <= per,
    ensures
        0 <= ceil_div(total, per) <= u32::MAX,
{
    assert(0 <= ceil_div(total, per) <= u32::MAX) by (nonlinear_arith)
        requires
            1 <= total <= u32::MAX,
            1 <= per,
    ;
}

/// The inode of a listed node, as it is read.
pub open spec fn listed_inode(x: Geometry, n: NodeView, q: Placed) -> InodeView {
    InodeView {
        mode: n.mode,
        uid: n.uid,
        gid: n.gid,
        size: q.size as u64,
        flags: if is_short_link(n) {
            0
        } else {
            INODE_EXTENTS
        },
        block: inode_map(n, q.extents, q.leaves, x.block as int),
        context: kept_label(n, x.inode_size as int),
    }
}

/// A stored inode body reads as the fields that it was written from.
proof fn body_reads(
    d: Seq<u8>,
    sb: Superblock,
    raw: Seq<u8>,
    x: Geometry,
    n: NodeView,
    q: Placed,
)
    requires
        x.wf(),
        sb.incompat == INCOMPAT,
        raw == inode_bytes(n, q.size, q.extents, q.leaves, x.block as int, x.inode_size as int),
        leaves_match(q.extents, q.leaves, x.block as int),
        0 <= q.size <= u64::MAX,
    ensures
        raw.len() == x.inode_size,
        label_of(sb, d, raw) == Ok::<Option<Seq<char>>, Fault>(kept_label(n, x.inode_size as int)),
        inode_fields(raw, kept_label(n, x.inode_size as int)) == listed_inode(x, n, q),
{
    let bs = x.block as int;
    inode_length(x, n, q);
    inode_fields_read_back(
        n,
        q.size,
        q.extents,
        q.leaves,
        bs,
        x.inode_size as int,
        kept_label(n, x.inode_size as int),
    );
    inode_splits(n, q.size, q.extents, q.leaves, bs, x.inode_size as int);
    inode_labels_read_back(raw, n);
    known_features();
}

/// The inode of a listed node reads back.
pub proof fn ext4_inodes_read_back(
    d: Seq<u8>,
    c: Census,
    p: Superblock,
    shared: bool,
    q: Seq<Placed>,
    m: Seq<int>,
    l: Seq<int>,
    k: int,
)
    requires
        spread(c.x, c.list, q, m, l),
        arrived(d, c, p, shared, q),
        0 <= k < c.list.len(),
    ensures
        inode_of(fresh_profile(c.x, p, shared), d, c.list[k].nid as int) == Ok::<InodeView, Fault>(
            listed_inode(c.x, c.list[k], q[k]),
        ),
{
    let x = c.x;
    let sb = fresh_profile(x, p, shared);
    let n = c.list[k];
    let bs = x.block as int;
    spread_facts(x, c.list, q, m, l, k);
    let raw = inode_bytes(n, q[k].size, q[k].extents, q[k].leaves, bs, x.inode_size as int);
    assert(holds(d, x.descriptors_at(), descriptors(c, x.groups())) && holds(d, inode_offset(x, n.nid), raw)) by {
        reveal(arrived);
    }
    inode_is_found(d, c, p, shared, k);
    body_reads(d, sb, raw, x, n, q[k]);
    let at = inode_offset(x, n.nid);
    assert(disk_read(d, at, sb.inode_size as int) == Ok::<Seq<u8>, Fault>(raw));
}

/// What holds of a node of a spread image.
pub proof fn spread_facts(
    x: Geometry,
    list: Seq<NodeView>,
    q: Seq<Placed>,
    m: Seq<int>,
    l: Seq<int>,
    k: int,
)
    requires
        spread(x, list, q, m, l),
        0 <= k < list.len(),
    ensures
        x.wf(),
        x.roomy(),
        well_numbered(list, x),
        node_spread(x, list[k], q[k], m[k], m[k + 1], l[k], l[k + 1]),
{
    reveal(spread);
}

// ---------------------------------------------------------------------
// Content by extents
// ---------------------------------------------------------------------
proof fn extents_one_more(d: Seq<u8>, bs: int, s: Seq<Extent>, data: Seq<u8>)
    requires
        s.len() > 0,
    ensures
        with_extents(d, bs, s, data) == match with_extents(d, bs, s.drop_last(), data) {
            Err(e) => Err(e),
            Ok(t) => with_extent(d, bs, s.last(), t),
        },
    decreases s.len(),
{
    if s.len() == 1 {
        assert(s.drop_first() =~= Seq::empty());
        assert(s.drop_last() =~= Seq::empty());
        reveal_with_fuel(with_extents, 2);
    } else {
        match with_extent(d, bs, s[0], data) {
            Ok(t) => {
                extents_one_more(d, bs, s.drop_first(), t);
                assert(s.drop_first().drop_last() =~= s.drop_last().drop_first());
                assert(s.drop_last()[0] == s[0]);
            },
            Err(_) => {
                assert(s.drop_last()[0] == s[0]);
            },
        }
    }
}

/// The first `n` bytes of `data`, and zeros for the rest.
pub open spec fn filled(data: Seq<u8>, n: int) -> Seq<u8> {
    Seq::new(data.len(), |i: int| if i < n { data[i] } else { 0 })
}

proof fn extent_fills(d: Seq<u8>, bs: int, e: (u32, u32, u32), data: Seq<u8>)
    requires
        1024 <= bs <= 65536,
        holds(d, e.1 * bs, dir_part(data, e, bs)),
        e.1 * bs + e.2 * bs <= u64::MAX,
    ensures
        with_extent(d, bs, as_extent(e), filled(data, e.0 * bs)) == Ok::<Seq<u8>, Fault>(
            filled(data, (e.0 + e.2) * bs),
        ),
{
    let at = e.0 * bs;
    let end = (e.0 + e.2) * bs;
    assert(0 <= at && end == at + e.2 * bs && 0 <= e.2 * bs && at <= u64::MAX && e.2 * bs
        <= u64::MAX && 0 <= e.1 * bs) by (nonlinear_arith)
        requires
            at == e.0 * bs,
            end == (e.0 + e.2) * bs,
            0 < bs <= 65536,
    ;
    let acc = filled(data, at);
    if at >= data.len() {
        assert(acc =~= filled(data, end));
    } else {
        let x = dir_part(data, e, bs);
        let n = least(e.2 * bs, data.len() - at);
        assert(x.len() == n);
        assert(disk_read(d, e.1 * bs, n) == Ok::<Seq<u8>, Fault>(x));
        assert(splice(acc, at, x) =~= filled(data, end));
    }
}

/// Extents that follow each other give back the data whose parts they hold.
pub proof fn extents_fill(d: Seq<u8>, bs: int, s: Extents, to: int, data: Seq<u8>)
    requires
        1024 <= bs <= 65536,
        consecutive(s, 0, to),
        forall|i: int|
            0 <= i < s.len() ==> holds(d, (#[trigger] s[i]).1 * bs, dir_part(data, s[i], bs)),
    ensures
        with_extents(d, bs, as_extents(s), zeros(data.len() as int)) == Ok::<Seq<u8>, Fault>(
            filled(data, to * bs),
        ),
    decreases s.len(),
{
    if s.len() == 0 {
        assert(as_extents(s) =~= Seq::empty());
        assert(to * bs == 0) by (nonlinear_arith)
            requires
                to == 0,
        ;
        assert(zeros(data.len() as int) =~= filled(data, 0));
    } else {
        let front = s.drop_last();
        let e = s.last();
        assert forall|i: int| 0 <= i < front.len() implies holds(
            d,
            (#[trigger] front[i]).1 * bs,
            dir_part(data, front[i], bs),
        ) by {
            assert(front[i] == s[i]);
        }
        assert(s[s.len() - 1] == e);
        extents_fill(d, bs, front, e.0 as int, data);
        extents_one_more(d, bs, as_extents(s), zeros(data.len() as int));
        assert(as_extents(s).drop_last() =~= as_extents(front));
        assert(as_extents(s).last() == as_extent(e));
        assert(e.1 * bs + e.2 * bs <= u64::MAX) by (nonlinear_arith)
            requires
                0 < bs <= 65536,
        ;
        extent_fills(d, bs, e, data);
        assert(e.0 + e.2 == to);
    }
}

/// The extents of a node as they are read.
pub proof fn mapped_extents(s: Extents)
    ensures
        mapped(as_extents(s)).len() == s.len(),
        forall|i: int|
            0 <= i < s.len() ==> #[trigger] mapped(as_extents(s))[i] == (
                s[i].0 as u64,
                s[i].1 as u64,
                s[i].2 as u64,
            ),
    decreases s.len(),
{
    if s.len() > 0 {
        mapped_extents(s.drop_last());
        assert(as_extents(s).drop_last() =~= as_extents(s.drop_last()));
        let front = mapped(as_extents(s.drop_last()));
        assert forall|i: int| 0 <= i < s.len() implies #[trigger] mapped(as_extents(s))[i] == (
            s[i].0 as u64,
            s[i].1 as u64,
            s[i].2 as u64,
        ) by {
            if i < s.len() - 1 {
                assert(front[i] == (
                    s.drop_last()[i].0 as u64,
                    s.drop_last()[i].1 as u64,
                    s.drop_last()[i].2 as u64,
                ));
            }
        }
    }
}

/// Every block in front of the end is in some extent.
proof fn block_is_mapped(s: Extents, to: int, b: int) -> (i: int)
    requires
        consecutive(s, 0, to),
        0 <= b < to,
    ensures
        0 <= i < s.len(),
        s[i].0 <= b < s[i].0 + s[i].2,
    decreases s.len(),
{
    let e = s.last();
    if b >= e.0 {
        s.len() - 1
    } else {
        let i = block_is_mapped(s.drop_last(), e.0 as int, b);
        assert(s.drop_last()[i] == s[i]);
        i
    }
}

/// A block that an extent maps is found.
pub proof fn extent_is_found(s: Seq<(u64, u64, u64)>, block: int, i: int, k: int)
    requires
        0 <= i <= k < s.len(),
        s[k].0 <= block < s[k].0 + s[k].2,
    ensures
        extent_with(s, block, i) is Some,
    decreases s.len() - i,
{
    if !(s[i].0 <= block < s[i].0 + s[i].2) {
        extent_is_found(s, block, i + 1, k);
    }
}

/// The parts of the content `c` stand in the blocks of the extents.
pub open spec fn parts_stand(d: Seq<u8>, bs: int, s: Extents, c: Seq<u8>) -> bool {
    forall|i: int| 0 <= i < s.len() ==> holds(d, (#[trigger] s[i]).1 * bs, dir_part(c, s[i], bs))
}

proof fn piece_position(b: int, bs: int, at: int, rest: int, n: int, e: (u32, u32, u32), len: int)
    requires
        0 < bs,
        at == b * bs + rest,
        0 <= rest < bs,
        0 < n <= bs - rest,
        at + n <= len,
        e.0 <= b < e.0 + e.2,
    ensures
        e.0 * bs <= at,
        at + n <= (e.0 + e.2) * bs,
        (e.1 + (b - e.0)) * bs + rest == e.1 * bs + (at - e.0 * bs),
        0 <= e.1 * bs,
{
    assert(e.0 * bs <= b * bs && (b + 1) * bs <= (e.0 + e.2) * bs && (b + 1) * bs == b * bs + bs
        && (e.1 + (b - e.0)) * bs == e.1 * bs + b * bs - e.0 * bs && 0 <= e.1 * bs)
        by (nonlinear_arith)
        requires
            0 < bs,
            e.0 <= b,
            b + 1 <= e.0 + e.2,
    ;
}

/// A range inside one block reads back.
proof fn piece_reads_back(
    sb: Superblock,
    d: Seq<u8>,
    s: Extents,
    c: Seq<u8>,
    to: int,
    at: int,
    n: int,
)
    requires
        1024 <= sb.block_size <= 65536,
        consecutive(s, 0, to),
        parts_stand(d, sb.block_size as int, s, c),
        c.len() <= to * sb.block_size,
        0 <= at,
        0 < n <= sb.block_size - at % (sb.block_size as int),
        at + n <= c.len(),
    ensures
        ext4_piece(sb, d, mapped(as_extents(s)), at, n) == Ok::<Seq<u8>, Fault>(
            c.subrange(at, at + n),
        ),
{
    let bs = sb.block_size as int;
    let b = at / bs;
    let rest = at % bs;
    vstd::arithmetic::div_mod::lemma_fundamental_div_mod(at, bs);
    assert(0 <= b < to && at == b * bs + rest) by (nonlinear_arith)
        requires
            at == bs * b + rest,
            0 <= at < to * bs,
            0 <= rest < bs,
    ;
    let map = mapped(as_extents(s));
    mapped_extents(s);
    let k = block_is_mapped(s, to, b);
    assert(map[k].0 == s[k].0);
    extent_is_found(map, b, 0, k);
    extent_is_there(map, b, 0);
    let i = extent_with(map, b, 0)->Some_0;
    let e = s[i];
    assert(map[i] == (e.0 as u64, e.1 as u64, e.2 as u64));
    piece_position(b, bs, at, rest, n, e, c.len() as int);
    let x = dir_part(c, e, bs);
    let from = at - e.0 * bs;
    assert(holds(d, e.1 * bs, x));
    assert(e.1 * bs + from + n <= u64::MAX) by (nonlinear_arith)
        requires
            from + n <= (e.0 + e.2) * bs - e.0 * bs,
            0 < bs <= 65536,
    ;
    assert(d.subrange(e.1 * bs + from, e.1 * bs + from + n) =~= d.subrange(
        e.1 * bs,
        e.1 * bs + x.len(),
    ).subrange(from, from + n));
    assert(x.subrange(from, from + n) =~= c.subrange(at, at + n));
}

/// A range of a file reads back.
pub proof fn range_reads_back(
    sb: Superblock,
    d: Seq<u8>,
    s: Extents,
    c: Seq<u8>,
    to: int,
    at: int,
    len: int,
)
    requires
        1024 <= sb.block_size <= 65536,
        consecutive(s, 0, to),
        parts_stand(d, sb.block_size as int, s, c),
        c.len() <= to * sb.block_size,
        c.len() <= u64::MAX,
        0 <= at,
        0 <= len,
        at + len <= c.len(),
    ensures
        ext4_range(sb, d, mapped(as_extents(s)), at, len) == Ok::<Seq<u8>, Fault>(
            c.subrange(at, at + len),
        ),
    decreases len,
{
    let bs = sb.block_size as int;
    let n = least(bs - at % bs, len);
    if len > 0 {
        piece_reads_back(sb, d, s, c, to, at, n);
        range_reads_back(sb, d, s, c, to, at + n, len - n);
        assert(c.subrange(at, at + n) + c.subrange(at + n, at + len) =~= c.subrange(at, at + len));
    } else {
        assert(c.subrange(at, at + len) =~= Seq::empty());
    }
}

} // verus!
