//! What the metadata of the groups of a fresh ext4 image says, said of its bytes.
use super::erofs_laws::{field16, field32};
use super::ext4_count_laws::{
    free_blocks_add_up, free_inodes_add_up, groups_free_blocks, groups_free_inodes,
};
use super::ext4_groups::{
    block_flags, countable_census, descriptor, ext4_super, first_places, flags_byte, flags_bytes,
    free_blocks, group_bounds, group_dirs, group_writes, inode_flags, used_inodes, Census, Geometry,
    COMPAT_RESIZE_INODE, INCOMPAT,
};
use super::ext4_read_back::fresh_flags;
use super::fresh::log2;
use super::node::NodeView;
use crate::buf::{bytes16, bytes32, le16, le32, zeros};
use crate::fs::ext4::{Superblock, EXT4_MAGIC};
use crate::math::{ceil_div_covers, greatest, least};
use vstd::prelude::*;

verus! {

/// The bit `i` of a bitmap, the lowest bit of each byte first.
pub open spec fn bit_of(x: Seq<u8>, i: int) -> bool {
    (x[i / 8] >> ((i % 8) as u8)) & 1 == 1
}

/// How many of the first `n` bits of a bitmap are clear.
pub open spec fn clear_bits(x: Seq<u8>, n: int) -> int
    decreases n,
{
    if n <= 0 {
        0
    } else {
        clear_bits(x, n - 1) + if bit_of(x, n - 1) {
            0int
        } else {
            1
        }
    }
}

proof fn bits_of_a_byte(v: u8, a: u8, b: u8, c: u8, d: u8, e: u8, f: u8, g: u8, h: u8)
    requires
        a <= 1 && b <= 1 && c <= 1 && d <= 1 && e <= 1 && f <= 1 && g <= 1 && h <= 1,
        v == a + 2 * b + 4 * c + 8 * d + 16 * e + 32 * f + 64 * g + 128 * h,
    ensures
        (v >> 0u8) & 1 == a,
        (v >> 1u8) & 1 == b,
        (v >> 2u8) & 1 == c,
        (v >> 3u8) & 1 == d,
        (v >> 4u8) & 1 == e,
        (v >> 5u8) & 1 == f,
        (v >> 6u8) & 1 == g,
        (v >> 7u8) & 1 == h,
{
    assert((v >> 0u8) & 1 == a && (v >> 1u8) & 1 == b && (v >> 2u8) & 1 == c && (v >> 3u8) & 1 == d
        && (v >> 4u8) & 1 == e && (v >> 5u8) & 1 == f && (v >> 6u8) & 1 == g && (v >> 7u8) & 1 == h)
        by (bit_vector)
        requires
            a <= 1 && b <= 1 && c <= 1 && d <= 1 && e <= 1 && f <= 1 && g <= 1 && h <= 1,
            v == a + 2 * b + 4 * c + 8 * d + 16 * e + 32 * f + 64 * g + 128 * h,
    ;
}

spec fn weight(b: bool) -> u8 {
    if b {
        1
    } else {
        0
    }
}

/// Flags that are packed into bytes are found by their bits.
proof fn flags_are_bits(f: Seq<bool>, i: int)
    requires
        f.len() % 8 == 0,
        0 <= i < f.len(),
    ensures
        flags_bytes(f).len() == f.len() / 8,
        bit_of(flags_bytes(f), i) == f[i],
{
    let at = 8 * (i / 8);
    let v = flags_byte(f, at);
    assert(flags_bytes(f)[i / 8] == v);
    bits_of_a_byte(
        v,
        weight(f[at]),
        weight(f[at + 1]),
        weight(f[at + 2]),
        weight(f[at + 3]),
        weight(f[at + 4]),
        weight(f[at + 5]),
        weight(f[at + 6]),
        weight(f[at + 7]),
    );
    let k = i % 8;
    assert(i == at + k);
    assert(k == 0 || k == 1 || k == 2 || k == 3 || k == 4 || k == 5 || k == 6 || k == 7);
}

/// The fields of a descriptor.
proof fn descriptor_fields(c: Census, g: int)
    ensures
        ({
            let x = descriptor(c, g);
            &&& x.len() == 32
            &&& le32(x, 0) == c.x.bitmap(g) as u32
            &&& le32(x, 4) == (c.x.bitmap(g) + 1) as u32
            &&& le32(x, 8) == c.x.table(g) as u32
            &&& le16(x, 12) == free_blocks(c.used, c.x.start(g), c.x.span(g)) as u16
            &&& le16(x, 14) == (c.x.inodes_per_group - used_inodes(c.x, c.inodes(), g)) as u16
            &&& le16(x, 16) == group_dirs(c.list, c.x, g) as u16
        }),
{
    let x = descriptor(c, g);
    let a = bytes32(c.x.bitmap(g) as u32);
    let b = bytes32((c.x.bitmap(g) + 1) as u32);
    let e = bytes32(c.x.table(g) as u32);
    let f = bytes16(free_blocks(c.used, c.x.start(g), c.x.span(g)) as u16);
    let h = bytes16((c.x.inodes_per_group - used_inodes(c.x, c.inodes(), g)) as u16);
    let i = bytes16(group_dirs(c.list, c.x, g) as u16);
    seven_parts(a, b, e, f, h, i, zeros(14));
    field32(x, 0, c.x.bitmap(g) as u32);
    field32(x, 4, (c.x.bitmap(g) + 1) as u32);
    field32(x, 8, c.x.table(g) as u32);
    field16(x, 12, free_blocks(c.used, c.x.start(g), c.x.span(g)) as u16);
    field16(x, 14, (c.x.inodes_per_group - used_inodes(c.x, c.inodes(), g)) as u16);
    field16(x, 16, group_dirs(c.list, c.x, g) as u16);
}

proof fn seven_parts(
    a: Seq<u8>,
    b: Seq<u8>,
    e: Seq<u8>,
    f: Seq<u8>,
    h: Seq<u8>,
    i: Seq<u8>,
    z: Seq<u8>,
)
    requires
        a.len() == 4,
        b.len() == 4,
        e.len() == 4,
        f.len() == 2,
        h.len() == 2,
        i.len() == 2,
        z.len() == 14,
    ensures
        ({
            let x = a + b + e + f + h + i + z;
            &&& x.len() == 32
            &&& x.subrange(0, 4) == a
            &&& x.subrange(4, 8) == b
            &&& x.subrange(8, 12) == e
            &&& x.subrange(12, 14) == f
            &&& x.subrange(14, 16) == h
            &&& x.subrange(16, 18) == i
        }),
{
}

proof fn clear_blocks(c: Census, g: int, n: int)
    requires
        c.x.wf(),
        0 <= n <= c.x.span(g),
    ensures
        clear_bits(flags_bytes(block_flags(c.x, c.used, g)), n) == free_blocks(
            c.used,
            c.x.start(g),
            n,
        ),
        0 <= free_blocks(c.used, c.x.start(g), n) <= n,
    decreases n,
{
    if n > 0 {
        clear_blocks(c, g, n - 1);
        flags_are_bits(block_flags(c.x, c.used, g), n - 1);
    }
}

proof fn clear_inodes(c: Census, g: int, n: int)
    requires
        c.x.wf(),
        0 <= n <= c.x.inodes_per_group,
    ensures
        clear_bits(flags_bytes(inode_flags(c.x, c.inodes(), g)), n) == n - greatest(
            least(c.inodes() - g * c.x.inodes_per_group, n),
            0,
        ),
    decreases n,
{
    if n > 0 {
        clear_inodes(c, g, n - 1);
        flags_are_bits(inode_flags(c.x, c.inodes(), g), n - 1);
    }
}

/// The metadata of a group: its descriptor names the blocks where its bitmaps and
/// its inode table stand. The bitmap of the blocks has a bit for each block, set
/// where the block is in use, and that of the inodes one for each inode, set
/// where the inode has a number up to that of the last file. The descriptor
/// counts the bits that are clear.
pub proof fn groups_say_what_is_free(
    c: Census,
    p: Superblock,
    shared: bool,
    g: int,
    i: int,
)
    requires
        countable_census(c),
        0 <= g < c.x.groups(),
        0 <= i < 8 * c.x.block,
    ensures
        ({
            let w = group_writes(c, p, shared, g);
            let x = descriptor(c, g);
            let blocks = w[2].data;
            let inodes = w[3].data;
            &&& w[2].at == le32(x, 0) * c.x.block
            &&& w[3].at == le32(x, 4) * c.x.block
            &&& blocks.len() == c.x.block
            &&& inodes.len() == c.x.block
            &&& i < c.x.span(g) ==> bit_of(blocks, i) == c.used[c.x.start(g) + i]
            &&& c.x.span(g) <= i < c.x.blocks_per_group ==> bit_of(blocks, i)
            &&& i < c.x.inodes_per_group ==> (bit_of(inodes, i) <==> g * c.x.inodes_per_group + i + 1
                <= 9 + c.list.len())
            &&& i >= c.x.inodes_per_group ==> bit_of(inodes, i)
            &&& le16(x, 12) == clear_bits(blocks, c.x.span(g)) || clear_bits(blocks, c.x.span(g))
                > 0xffff
            &&& le16(x, 14) == clear_bits(inodes, c.x.inodes_per_group as int) || clear_bits(
                inodes,
                c.x.inodes_per_group as int,
            ) > 0xffff
        }),
{
    let blocks = flags_bytes(block_flags(c.x, c.used, g));
    let inodes = flags_bytes(inode_flags(c.x, c.inodes(), g));
    group_places(c, p, shared, g);
    group_bits(c, g, i);
    group_counts(c, g);
    assert(group_writes(c, p, shared, g)[2].data == blocks);
    assert(group_writes(c, p, shared, g)[3].data == inodes);
}

proof fn group_places(c: Census, p: Superblock, shared: bool, g: int)
    requires
        countable_census(c),
        0 <= g < c.x.groups(),
    ensures
        group_writes(c, p, shared, g)[2].at == le32(descriptor(c, g), 0) * c.x.block,
        group_writes(c, p, shared, g)[3].at == le32(descriptor(c, g), 4) * c.x.block,
{
    group_bounds(c.x, g);
    descriptor_fields(c, g);
    assert(0 <= c.x.bitmap(g) && c.x.bitmap(g) + 1 <= c.x.total);
}

#[verifier::rlimit(60)]
#[verifier::spinoff_prover]
proof fn group_bits(c: Census, g: int, i: int)
    requires
        countable_census(c),
        0 <= g < c.x.groups(),
        0 <= i < 8 * c.x.block,
    ensures
        ({
            let blocks = flags_bytes(block_flags(c.x, c.used, g));
            let inodes = flags_bytes(inode_flags(c.x, c.inodes(), g));
            &&& blocks.len() == c.x.block
            &&& inodes.len() == c.x.block
            &&& i < c.x.span(g) ==> bit_of(blocks, i) == c.used[c.x.start(g) + i]
            &&& c.x.span(g) <= i < c.x.blocks_per_group ==> bit_of(blocks, i)
            &&& i < c.x.inodes_per_group ==> (bit_of(inodes, i) <==> g * c.x.inodes_per_group + i + 1
                <= 9 + c.list.len())
            &&& i >= c.x.inodes_per_group ==> bit_of(inodes, i)
        }),
{
    let b = block_flags(c.x, c.used, g);
    let n = inode_flags(c.x, c.inodes(), g);
    flags_are_bits(b, i);
    flags_are_bits(n, i);
    group_bounds(c.x, g);
    assert(b.len() / 8 == c.x.block);
    assert(n.len() / 8 == c.x.block);
    assert(n[i] == (i >= c.x.inodes_per_group || g * c.x.inodes_per_group + i < c.inodes()));
    assert(c.inodes() == 9 + c.list.len());
}

proof fn group_counts(c: Census, g: int)
    requires
        countable_census(c),
        0 <= g < c.x.groups(),
    ensures
        ({
            let x = descriptor(c, g);
            let blocks = clear_bits(flags_bytes(block_flags(c.x, c.used, g)), c.x.span(g));
            let inodes = clear_bits(
                flags_bytes(inode_flags(c.x, c.inodes(), g)),
                c.x.inodes_per_group as int,
            );
            &&& le16(x, 12) == blocks || blocks > 0xffff
            &&& le16(x, 14) == inodes || inodes > 0xffff
        }),
{
    group_bounds(c.x, g);
    descriptor_fields(c, g);
    clear_blocks(c, g, c.x.span(g));
    clear_inodes(c, g, c.x.inodes_per_group as int);
}

/// The copies of the superblock and of the descriptors: every group starts with
/// them, and they are all the same. In the first group the superblock stands at
/// byte 1024 of the image.
pub proof fn groups_start_alike(c: Census, p: Superblock, shared: bool, g: int)
    requires
        c.x.wf(),
        0 <= g,
    ensures
        ({
            let w = group_writes(c, p, shared, g);
            let first = group_writes(c, p, shared, 0);
            let start = (c.x.first() + g * c.x.blocks_per_group) * c.x.block;
            &&& w.len() == 4
            &&& w[0].data == first[0].data
            &&& w[1].data == first[1].data
            &&& first[0].at == 1024
            &&& g > 0 ==> w[0].at == start
            &&& w[1].at == start + c.x.block
        }),
{
    first_places(c.x);
    let b = c.x.block as int;
    let s = c.x.start(g);
    assert((s + 1) * b == s * b + b) by (nonlinear_arith);
}

proof fn fronts_stay(a: Seq<u8>, b: Seq<u8>)
    requires
        a.len() >= 24,
    ensures
        (a + b).len() >= 24,
        (a + b).take(24) == a.take(24),
{
    assert((a + b).take(24) =~= a.take(24));
}

proof fn first_six(a: Seq<u8>, b: Seq<u8>, e: Seq<u8>, f: Seq<u8>, h: Seq<u8>, i: Seq<u8>)
    requires
        a.len() == 4,
        b.len() == 4,
        e.len() == 4,
        f.len() == 4,
        h.len() == 4,
        i.len() == 4,
    ensures
        ({
            let x = a + b + e + f + h + i;
            &&& x.len() == 24
            &&& x.take(24).subrange(0, 4) == a
            &&& x.take(24).subrange(4, 8) == b
            &&& x.take(24).subrange(12, 16) == f
            &&& x.take(24).subrange(16, 20) == h
            &&& x.take(24).subrange(20, 24) == i
        }),
{
    let x = a + b + e + f + h + i;
    assert(x.take(24) =~= x);
}

proof fn front_fields(x: Seq<u8>, a: u32, b: u32, f: u32, h: u32, i: u32)
    requires
        x.len() >= 24,
        x.take(24).subrange(0, 4) == bytes32(a),
        x.take(24).subrange(4, 8) == bytes32(b),
        x.take(24).subrange(12, 16) == bytes32(f),
        x.take(24).subrange(16, 20) == bytes32(h),
        x.take(24).subrange(20, 24) == bytes32(i),
    ensures
        le32(x, 0) == a,
        le32(x, 4) == b,
        le32(x, 12) == f,
        le32(x, 16) == h,
        le32(x, 20) == i,
{
    let t = x.take(24);
    assert(x.subrange(0, 4) =~= t.subrange(0, 4));
    assert(x.subrange(4, 8) =~= t.subrange(4, 8));
    assert(x.subrange(12, 16) =~= t.subrange(12, 16));
    assert(x.subrange(16, 20) =~= t.subrange(16, 20));
    assert(x.subrange(20, 24) =~= t.subrange(20, 24));
    field32(x, 0, a);
    field32(x, 4, b);
    field32(x, 12, f);
    field32(x, 16, h);
    field32(x, 20, i);
}

/// The counts of the superblock.
proof fn super_fields(c: Census, p: Superblock, shared: bool)
    ensures
        ({
            let x = ext4_super(c, p, shared);
            &&& le32(x, 0) == c.total_inodes() as u32
            &&& le32(x, 4) == c.x.total as u32
            &&& le32(x, 12) == c.free_blocks() as u32
            &&& le32(x, 16) == c.free_inodes() as u32
            &&& le32(x, 20) == c.x.first() as u32
        }),
{
    let x = ext4_super(c, p, shared);
    let log = bytes32((log2(c.x.block as int) - 10) as u32);
    let a = bytes32(c.total_inodes() as u32);
    let b = bytes32(c.x.total as u32);
    let f = bytes32(c.free_blocks() as u32);
    let h = bytes32(c.free_inodes() as u32);
    let i = bytes32(c.x.first() as u32);
    let bpg = bytes32(c.x.blocks_per_group as u32);
    let ro = bytes32(fresh_flags(p, shared));
    let x0 = a + b + zeros(4) + f + h + i;
    first_six(a, b, zeros(4), f, h, i);
    let x1 = x0 + log;
    fronts_stay(x0, log);
    let x2 = x1 + log;
    fronts_stay(x1, log);
    let x3 = x2 + bpg;
    fronts_stay(x2, bpg);
    let x4 = x3 + bpg;
    fronts_stay(x3, bpg);
    let x5 = x4 + bytes32(c.x.inodes_per_group as u32);
    fronts_stay(x4, bytes32(c.x.inodes_per_group as u32));
    let x6 = x5 + zeros(12);
    fronts_stay(x5, zeros(12));
    let x7 = x6 + bytes16(EXT4_MAGIC);
    fronts_stay(x6, bytes16(EXT4_MAGIC));
    let x8 = x7 + zeros(18);
    fronts_stay(x7, zeros(18));
    let x9 = x8 + bytes32(1);
    fronts_stay(x8, bytes32(1));
    let y0 = x9 + zeros(4);
    fronts_stay(x9, zeros(4));
    let y1 = y0 + bytes32(11);
    fronts_stay(y0, bytes32(11));
    let y2 = y1 + bytes16(c.x.inode_size as u16);
    fronts_stay(y1, bytes16(c.x.inode_size as u16));
    let y3 = y2 + zeros(2);
    fronts_stay(y2, zeros(2));
    let y4 = y3 + bytes32(p.compat & !COMPAT_RESIZE_INODE);
    fronts_stay(y3, bytes32(p.compat & !COMPAT_RESIZE_INODE));
    let y5 = y4 + bytes32(INCOMPAT);
    fronts_stay(y4, bytes32(INCOMPAT));
    let y6 = y5 + ro;
    fronts_stay(y5, ro);
    let y7 = y6 + zeros(150);
    fronts_stay(y6, zeros(150));
    fronts_stay(y7, bytes16(32));
    assert(x == y7 + bytes16(32));
    front_fields(
        x,
        c.total_inodes() as u32,
        c.x.total as u32,
        c.free_blocks() as u32,
        c.free_inodes() as u32,
        c.x.first() as u32,
    );
}

/// What the descriptors of the first `n` groups count as free: blocks and inodes.
pub open spec fn counted_free(c: Census, n: int) -> (int, int)
    decreases n,
{
    if n <= 0 {
        (0, 0)
    } else {
        let before = counted_free(c, n - 1);
        let x = descriptor(c, n - 1);
        (before.0 + le16(x, 12), before.1 + le16(x, 14))
    }
}

proof fn counts_add_up(c: Census, n: int)
    requires
        countable_census(c),
        c.x.blocks_per_group <= 0xffff,
        c.x.inodes_per_group <= 0xffff,
        0 <= n <= c.x.groups(),
    ensures
        counted_free(c, n) == (groups_free_blocks(c, n), groups_free_inodes(c, n)),
    decreases n,
{
    if n > 0 {
        counts_add_up(c, n - 1);
        group_bounds(c.x, n - 1);
        descriptor_fields(c, n - 1);
        clear_blocks(c, n - 1, c.x.span(n - 1));
    }
}

/// The superblock counts what the descriptors of the groups count, and says how
/// many blocks and inodes there are, and which block the first group starts with.
pub proof fn superblocks_count_the_groups(c: Census, p: Superblock, shared: bool)
    requires
        countable_census(c),
        c.x.first() == 1 ==> c.used[0],
        c.x.blocks_per_group <= 0xffff,
        c.x.inodes_per_group <= 0xffff,
        c.total_inodes() <= u32::MAX,
    ensures
        ({
            let x = ext4_super(c, p, shared);
            let free = counted_free(c, c.x.groups());
            &&& le32(x, 0) == c.x.groups() * c.x.inodes_per_group
            &&& le32(x, 4) == c.x.total
            &&& le32(x, 12) == free.0
            &&& le32(x, 16) == free.1
            &&& le32(x, 20) == if c.x.block == 1024 {
                1int
            } else {
                0
            }
        }),
{
    super_fields(c, p, shared);
    free_blocks_add_up(c);
    free_inodes_add_up(c);
    let groups = c.x.groups();
    assert(0 <= groups) by {
        group_count_is_natural(c.x);
    }
    counts_add_up(c, groups);
    whole_is_counted(c.used, c.x.total as int);
}

proof fn group_count_is_natural(x: Geometry)
    requires
        x.wf(),
    ensures
        0 <= x.groups(),
{
    let bpg = x.blocks_per_group as int;
    let total = x.total as int;
    ceil_div_covers(total, bpg);
    let g = x.groups();
    assert(0 <= g) by (nonlinear_arith)
        requires
            g * bpg >= total,
            total >= 1,
            bpg > 0,
    ;
}

proof fn whole_is_counted(used: Seq<bool>, n: int)
    requires
        0 <= n,
    ensures
        0 <= free_blocks(used, 0, n) <= n,
    decreases n,
{
    if n > 0 {
        whole_is_counted(used, n - 1);
    }
}

/// The directories of a group are those whose inodes are in its table.
pub open spec fn directories_there(s: Seq<NodeView>, first: int, count: int) -> int
    decreases s.len(),
{
    if s.len() == 0 {
        0
    } else {
        directories_there(s.drop_last(), first, count) + if s.last().is_dir() && first
            <= s.last().nid < first + count {
            1int
        } else {
            0
        }
    }
}

proof fn directories_are_there(s: Seq<NodeView>, x: Geometry, g: int)
    requires
        x.wf(),
        0 <= g,
        forall|k: int| 0 <= k < s.len() ==> (#[trigger] s[k]).nid >= 1,
    ensures
        group_dirs(s, x, g) == directories_there(
            s,
            g * x.inodes_per_group + 1,
            x.inodes_per_group as int,
        ),
        0 <= group_dirs(s, x, g),
    decreases s.len(),
{
    if s.len() > 0 {
        let front = s.drop_last();
        assert forall|k: int| 0 <= k < front.len() implies (#[trigger] front[k]).nid >= 1 by {
            assert(front[k] == s[k]);
        }
        directories_are_there(front, x, g);
        assert(s[s.len() - 1].nid >= 1);
        let a = s.last().nid - 1;
        let q = x.inodes_per_group as int;
        vstd::arithmetic::div_mod::lemma_fundamental_div_mod(a, q);
        let r = a / q;
        assert((r == g) == (g * q <= a < g * q + q)) by (nonlinear_arith)
            requires
                a == q * r + a % q,
                0 <= a % q < q,
                q > 0,
        ;
    }
}

/// The descriptor of a group counts the directories whose inodes are in the table
/// of the group.
pub proof fn groups_count_their_directories(c: Census, g: int)
    requires
        countable_census(c),
        0 <= g,
    ensures
        ({
            let n = directories_there(
                c.list,
                g * c.x.inodes_per_group + 1,
                c.x.inodes_per_group as int,
            );
            n <= 0xffff ==> le16(descriptor(c, g), 16) == n
        }),
{
    descriptor_fields(c, g);
    directories_are_there(c.list, c.x, g);
}

} // verus!
