//! The block groups of a fresh ext4 image.
use super::fresh::{log2, log_two, push_fitting, writes_fit};
use super::node::{ref_views, Node, NodeView};
use super::patch::{patch_views, Patch, PatchView};
use crate::buf::{
    bytes16, bytes32, copy_range, pad_to, push16, push32, push_bytes, zeroed, zeros,
};
use crate::error::{fail, Error, Fault};
use crate::fs::ext4::{Superblock, EXT4_MAGIC};
use crate::math::{ceil_div, ceil_div_covers, div_up, greatest, least};
use vstd::prelude::*;

verus! {

/// The feature of an inode for resizing.
pub const COMPAT_RESIZE_INODE: u32 = 0x10;

/// The feature of checksums for groups.
pub const RO_GDT_CSUM: u32 = 0x10;

/// The feature of few copies of the superblock.
pub const RO_SPARSE_SUPER: u32 = 0x1;

/// The feature of blocks that files share.
pub const RO_SHARED_BLOCKS: u32 = 0x4000;

/// Extents and file types in directories.
pub const INCOMPAT: u32 = 0x42;

/// The inodes in front of the first one that is not reserved, but for the
/// root directory.
pub const RESERVED_INODES: u64 = 9;

/// The sizes that a fresh image is laid out by.
#[derive(Debug, Clone, Copy)]
pub struct Geometry {
    pub block: u64,
    pub total: u64,
    pub blocks_per_group: u64,
    pub inodes_per_group: u64,
    pub inode_size: u64,
}

/// Whether the blocks of an image can be counted: its bitmaps fit into blocks.
pub open spec fn plannable(p: Superblock) -> bool {
    &&& 1024 <= p.block_size <= 65536
    &&& p.block_size % 4 == 0
    &&& 0 < p.blocks_per_group <= 8 * p.block_size
    &&& 0 < p.inodes_per_group <= 8 * p.block_size
    &&& p.inode_size >= 128
}

/// Whether a profile can be laid out: its bitmaps have to fit into blocks,
/// and the superblock in front of the group descriptors. With blocks of 1024
/// bytes the superblock is the second one, and the first group starts there.
pub open spec fn laid_out(p: Superblock) -> Result<(), Fault> {
    if p.block_size != 1024 && p.block_size < 2048 || p.block_size > 65536 || p.block_size % 4 != 0 {
        fail("unsupported ext4 block size"@)
    } else if p.blocks_per_group == 0 || p.blocks_per_group > 8 * p.block_size {
        fail("invalid ext4 blocks per group"@)
    } else if p.inodes_per_group == 0 || p.inodes_per_group > 8 * p.block_size {
        fail("invalid ext4 inodes per group"@)
    } else if p.inode_size < 128 {
        fail("invalid ext4 inode size"@)
    } else {
        Ok(())
    }
}

/// Checks that a profile can be laid out.
pub fn check_layout(p: &Superblock) -> (r: Result<(), Error>)
    ensures
        match r {
            Ok(_) => laid_out(*p) is Ok,
            Err(e) => laid_out(*p) == Err::<(), Fault>(e@),
        },
{
    if p.block_size != 1024 && p.block_size < 2048 || p.block_size > 65536 || p.block_size % 4 != 0 {
        return Err(Error::invalid("unsupported ext4 block size"));
    }
    if p.blocks_per_group == 0 || p.blocks_per_group as u64 > 8 * p.block_size {
        return Err(Error::invalid("invalid ext4 blocks per group"));
    }
    if p.inodes_per_group == 0 || p.inodes_per_group as u64 > 8 * p.block_size {
        return Err(Error::invalid("invalid ext4 inodes per group"));
    }
    if p.inode_size < 128 {
        return Err(Error::invalid("invalid ext4 inode size"));
    }
    Ok(())
}

impl Geometry {
    /// The sizes of an image of `total` blocks.
    pub open spec fn of(p: Superblock, total: int) -> Geometry {
        Geometry {
            block: p.block_size,
            total: total as u64,
            blocks_per_group: p.blocks_per_group as u64,
            inodes_per_group: p.inodes_per_group as u64,
            inode_size: p.inode_size as u64,
        }
    }

    /// The sizes of an image of `total` blocks.
    pub fn new(p: &Superblock, total: u64) -> (g: Geometry)
        ensures
            g == Geometry::of(*p, total as int),
    {
        Geometry {
            block: p.block_size,
            total,
            blocks_per_group: p.blocks_per_group as u64,
            inodes_per_group: p.inodes_per_group as u64,
            inode_size: p.inode_size as u64,
        }
    }

    /// Bitmaps fit into blocks, and block numbers into their fields.
    pub open spec fn wf(self) -> bool {
        &&& self.block == 1024 || 2048 <= self.block <= 65536
        &&& self.block % 4 == 0
        &&& 1 <= self.total <= u32::MAX
        &&& 1 <= self.blocks_per_group <= 8 * self.block
        &&& 1 <= self.inodes_per_group <= 8 * self.block
        &&& 128 <= self.inode_size <= 65535
    }

    /// The number of groups.
    pub open spec fn groups(self) -> int {
        ceil_div(self.total as int, self.blocks_per_group as int)
    }

    /// The blocks of an inode table.
    pub open spec fn table_blocks(self) -> int {
        ceil_div(self.inodes_per_group * self.inode_size, self.block as int)
    }

    /// The blocks of the group descriptors.
    pub open spec fn descriptor_blocks(self) -> int {
        ceil_div(self.groups() * 32, self.block as int)
    }

    /// The blocks in front of the data of a group: superblock, group
    /// descriptors, the two bitmaps, and the inode table.
    pub open spec fn overhead(self) -> int {
        1 + self.descriptor_blocks() + 2 + self.table_blocks()
    }

    /// The block that the first group starts with: the one that holds the
    /// superblock.
    pub open spec fn first(self) -> int {
        if self.block == 1024 {
            1
        } else {
            0
        }
    }

    /// Where the descriptors of the groups stand: in the block behind that of
    /// the superblock.
    pub open spec fn descriptors_at(self) -> int {
        if self.block == 1024 {
            2048
        } else {
            self.block as int
        }
    }

    /// The first block of a group.
    pub open spec fn start(self, g: int) -> int {
        self.first() + g * self.blocks_per_group
    }

    /// The blocks of a group: the last one may have fewer.
    pub open spec fn span(self, g: int) -> int {
        least(self.total - self.start(g), self.blocks_per_group as int)
    }

    /// Every group has room for what comes in front of its data.
    pub open spec fn roomy(self) -> bool {
        self.overhead() <= self.span(self.groups() - 1)
    }

    /// The block bitmap of a group; the inode bitmap and the inode table are
    /// behind it.
    pub open spec fn bitmap(self, g: int) -> int {
        self.start(g) + 1 + self.descriptor_blocks()
    }

    /// The inode table of a group.
    pub open spec fn table(self, g: int) -> int {
        self.bitmap(g) + 2
    }

    /// The blocks that are used in front of all data.
    pub open spec fn reserved(self) -> Seq<bool> {
        Seq::new(
            self.total as nat,
            |i: int|
                i < self.first() || (i - self.first()) % (self.blocks_per_group as int)
                    < self.overhead(),
        )
    }
}

/// Where the first group starts, and its descriptors.
pub proof fn first_places(x: Geometry)
    requires
        x.wf(),
    ensures
        x.start(0) == x.first(),
        x.start(0) * x.block == if x.block == 1024 {
            1024int
        } else {
            0
        },
        (x.start(0) + 1) * x.block == x.descriptors_at(),
{
    let a = x.start(0);
    assert(a == x.first()) by (nonlinear_arith)
        requires
            a == x.first() + 0 * x.blocks_per_group,
    ;
    assert(a == 0 ==> a * x.block == 0 && (a + 1) * x.block == x.block) by (nonlinear_arith);
    assert(a == 1 ==> a * x.block == x.block && (a + 1) * x.block == 2 * x.block)
        by (nonlinear_arith);
}

/// Groups are counted by their first blocks.
pub proof fn group_bounds(x: Geometry, g: int)
    requires
        x.wf(),
        0 <= g < x.groups(),
    ensures
        0 <= x.start(g) <= x.total,
        0 <= x.span(g) <= x.blocks_per_group,
        x.start(g) + x.span(g) <= x.total,
        x.span(x.groups() - 1) <= x.span(g),
        1 <= x.groups() <= x.total,
        0 <= x.table_blocks() <= 0x400_0000,
        0 <= x.descriptor_blocks() <= x.groups(),
        x.descriptor_blocks() * x.block >= x.groups() * 32,
        x.table_blocks() * x.block >= x.inodes_per_group * x.inode_size,
{
    let bpg = x.blocks_per_group as int;
    let n = x.groups();
    ceil_div_covers(x.total as int, bpg);
    assert(n * bpg < x.total + bpg && n * bpg >= x.total);
    assert(g * bpg + bpg <= n * bpg) by (nonlinear_arith)
        requires
            g + 1 <= n,
            0 < bpg,
    ;
    assert(0 <= g * bpg) by (nonlinear_arith)
        requires
            0 <= g,
            0 < bpg,
    ;
    assert((n - 1) * bpg == n * bpg - bpg) by (nonlinear_arith);
    assert(g * bpg <= (n - 1) * bpg);
    assert(g < n - 1 ==> g * bpg + bpg <= (n - 1) * bpg) by (nonlinear_arith)
        requires
            0 < bpg,
    ;
    let bytes = x.inodes_per_group * x.inode_size;
    assert(0 <= bytes <= 0x8_0000 * 0x1_0000) by (nonlinear_arith)
        requires
            bytes == x.inodes_per_group * x.inode_size,
            0 <= x.inodes_per_group <= 0x8_0000,
            0 <= x.inode_size <= 0x1_0000,
    ;
    ceil_div_covers(bytes, x.block as int);
    let t = x.table_blocks();
    assert(t <= 0x400_0000) by (nonlinear_arith)
        requires
            t * x.block < bytes + x.block,
            bytes <= 0x8_0000 * 0x1_0000,
            1024 <= x.block <= 65536,
    ;
    ceil_div_covers(n * 32, x.block as int);
    let d = x.descriptor_blocks();
    assert(d <= n) by (nonlinear_arith)
        requires
            d * x.block < n * 32 + x.block,
            1 <= n,
            1024 <= x.block,
    ;
}

impl Geometry {
    /// Finds the block that the first group starts with.
    pub fn first_block(&self) -> (n: u64)
        ensures
            n == self.first(),
    {
        if self.block == 1024 {
            1
        } else {
            0
        }
    }

    fn count_groups(&self) -> (n: u64)
        requires
            self.wf(),
        ensures
            n == self.groups(),
            1 <= n <= u32::MAX,
    {
        proof {
            ceil_div_covers(self.total as int, self.blocks_per_group as int);
            let n = self.groups();
            assert(n >= 1) by (nonlinear_arith)
                requires
                    n * self.blocks_per_group >= self.total,
                    self.total >= 1,
                    self.blocks_per_group >= 1,
            ;
        }
        div_up(self.total, self.blocks_per_group)
    }

    fn count_descriptor_blocks(&self) -> (n: u64)
        requires
            self.wf(),
        ensures
            n == self.descriptor_blocks(),
            n <= u32::MAX,
    {
        let groups = self.count_groups();
        proof {
            group_bounds(*self, 0);
        }
        div_up(groups * 32, self.block)
    }

    fn count_overhead(&self) -> (n: u64)
        requires
            self.wf(),
        ensures
            n == self.overhead(),
            3 <= n <= 0x2_0000_0000,
    {
        let groups = self.count_groups();
        proof {
            group_bounds(*self, 0);
            assert(self.inodes_per_group * self.inode_size <= 0x8_0000 * 0x1_0000)
                by (nonlinear_arith)
                requires
                    0 <= self.inodes_per_group <= 0x8_0000,
                    0 <= self.inode_size <= 0x1_0000,
            ;
        }
        3 + self.count_descriptor_blocks() + div_up(
            self.inodes_per_group * self.inode_size,
            self.block,
        )
    }

    /// Finds the inode table of a group.
    pub fn find_table(&self, g: u64) -> (n: u64)
        requires
            self.wf(),
            g < self.groups(),
        ensures
            n == self.table(g as int),
            n <= 0x2_0000_0002,
    {
        proof {
            group_bounds(*self, g as int);
        }
        self.first_block() + g * self.blocks_per_group + 1 + self.count_descriptor_blocks() + 2
    }

    /// Whether every group has room for what comes in front of its data.
    pub fn is_roomy(&self) -> (b: bool)
        requires
            self.wf(),
        ensures
            b == self.roomy(),
    {
        let groups = self.count_groups();
        proof {
            group_bounds(*self, self.groups() - 1);
        }
        let left = self.total - (self.first_block() + (groups - 1) * self.blocks_per_group);
        let span = if left < self.blocks_per_group {
            left
        } else {
            self.blocks_per_group
        };
        self.count_overhead() <= span
    }

    /// Marks the blocks that are used in front of all data.
    pub fn reserve_blocks(&self) -> (used: Vec<bool>)
        requires
            self.wf(),
        ensures
            used@ == self.reserved(),
    {
        let overhead = self.count_overhead();
        let first = self.first_block();
        let mut used: Vec<bool> = Vec::new();
        let mut i: u64 = 0;
        while i < self.total
            invariant
                self.wf(),
                i <= self.total,
                overhead == self.overhead(),
                first == self.first(),
                used@.len() == i,
                forall|k: int|
                    0 <= k < i ==> #[trigger] used@[k] == (k < self.first() || (k - self.first()) % (
                    self.blocks_per_group as int) < self.overhead()),
            decreases self.total - i,
        {
            used.push(i < first || (i - first) % self.blocks_per_group < overhead);
            i = i + 1;
        }
        assert(used@ =~= self.reserved());
        used
    }
}

// ---------------------------------------------------------------------
// Bitmaps
// ---------------------------------------------------------------------
/// The value of a flag in its byte.
pub open spec fn flag(b: bool, weight: int) -> int {
    if b {
        weight
    } else {
        0
    }
}

/// The byte of eight flags, the first one the least.
pub open spec fn flags_byte(f: Seq<bool>, at: int) -> u8 {
    (flag(f[at], 1) + flag(f[at + 1], 2) + flag(f[at + 2], 4) + flag(f[at + 3], 8) + flag(
        f[at + 4],
        16,
    ) + flag(f[at + 5], 32) + flag(f[at + 6], 64) + flag(f[at + 7], 128)) as u8
}

/// Flags, eight to a byte.
pub open spec fn flags_bytes(f: Seq<bool>) -> Seq<u8> {
    Seq::new(f.len() / 8, |i: int| flags_byte(f, 8 * i))
}

fn weigh(b: bool, weight: u8) -> (n: u8)
    ensures
        n == flag(b, weight as int),
{
    if b {
        weight
    } else {
        0
    }
}

fn pack_byte(f: &Vec<bool>, at: usize) -> (v: u8)
    requires
        at + 8 <= f@.len(),
    ensures
        v == flags_byte(f@, at as int),
{
    let _count = f.len();
    let low: u8 = weigh(f[at], 1) + weigh(f[at + 1], 2) + weigh(f[at + 2], 4) + weigh(
        f[at + 3],
        8,
    );
    let high: u8 = weigh(f[at + 4], 16) + weigh(f[at + 5], 32) + weigh(f[at + 6], 64) + weigh(
        f[at + 7],
        128,
    );
    low + high
}

/// Packs flags, eight to a byte.
fn pack_flags(f: &Vec<bool>) -> (v: Vec<u8>)
    ensures
        v@ == flags_bytes(f@),
{
    let mut out: Vec<u8> = Vec::new();
    let n = f.len() / 8;
    let mut i: usize = 0;
    while i < n
        invariant
            i <= n,
            n == f@.len() / 8,
            8 * n <= usize::MAX,
            out@.len() == i,
            forall|k: int| 0 <= k < i ==> #[trigger] out@[k] == flags_byte(f@, 8 * k),
        decreases n - i,
    {
        out.push(pack_byte(f, 8 * i));
        i += 1;
    }
    assert(out@ =~= flags_bytes(f@));
    out
}

/// The flags of the blocks of a group; those behind its end are set.
pub open spec fn block_flags(x: Geometry, used: Seq<bool>, g: int) -> Seq<bool> {
    Seq::new(
        (8 * x.block) as nat,
        |i: int|
            if i < x.span(g) {
                used[x.start(g) + i]
            } else {
                i < x.blocks_per_group
            },
    )
}

/// The flags of the inodes of a group, the first `inodes` being used; those
/// behind its end are set.
pub open spec fn inode_flags(x: Geometry, inodes: int, g: int) -> Seq<bool> {
    Seq::new(
        (8 * x.block) as nat,
        |i: int| i >= x.inodes_per_group || g * x.inodes_per_group + i < inodes,
    )
}

fn list_block_flags(x: &Geometry, used: &Vec<bool>, g: u64) -> (f: Vec<bool>)
    requires
        x.wf(),
        g < x.groups(),
        used@.len() == x.total,
    ensures
        f@ == block_flags(*x, used@, g as int),
{
    proof {
        group_bounds(*x, g as int);
    }
    let start = x.first_block() + g * x.blocks_per_group;
    let left = x.total - start;
    let span = if left < x.blocks_per_group {
        left
    } else {
        x.blocks_per_group
    };
    let mut f: Vec<bool> = Vec::new();
    let mut i: u64 = 0;
    while i < 8 * x.block
        invariant
            x.wf(),
            i <= 8 * x.block,
            start == x.start(g as int),
            span == x.span(g as int),
            start + span <= x.total,
            used@.len() == x.total,
            f@.len() == i,
            forall|k: int|
                0 <= k < i ==> #[trigger] f@[k] == (if k < span {
                    used@[start + k]
                } else {
                    k < x.blocks_per_group
                }),
        decreases 8 * x.block - i,
    {
        let b = if i < span {
            used[(start + i) as usize]
        } else {
            i < x.blocks_per_group
        };
        f.push(b);
        i = i + 1;
    }
    assert(f@ =~= block_flags(*x, used@, g as int));
    f
}

fn list_inode_flags(x: &Geometry, inodes: u64, g: u64) -> (f: Vec<bool>)
    requires
        x.wf(),
        g < x.groups(),
    ensures
        f@ == inode_flags(*x, inodes as int, g as int),
{
    proof {
        group_bounds(*x, g as int);
        assert(g * x.inodes_per_group <= 0xffff_ffff * 0x8_0000) by (nonlinear_arith)
            requires
                g <= 0xffff_ffff,
                x.inodes_per_group <= 0x8_0000,
        ;
    }
    let first = g * x.inodes_per_group;
    let mut f: Vec<bool> = Vec::new();
    let mut i: u64 = 0;
    while i < 8 * x.block
        invariant
            x.wf(),
            i <= 8 * x.block,
            first == g * x.inodes_per_group,
            first <= 0xffff_ffff * 0x8_0000,
            f@.len() == i,
            forall|k: int|
                0 <= k < i ==> #[trigger] f@[k] == (k >= x.inodes_per_group || g
                    * x.inodes_per_group + k < inodes),
        decreases 8 * x.block - i,
    {
        f.push(i >= x.inodes_per_group || first + i < inodes);
        i = i + 1;
    }
    assert(f@ =~= inode_flags(*x, inodes as int, g as int));
    f
}

// ---------------------------------------------------------------------
// Counts
// ---------------------------------------------------------------------
/// The number of free blocks among `n` from `at` on.
pub open spec fn free_blocks(used: Seq<bool>, at: int, n: int) -> int
    decreases n,
{
    if n <= 0 {
        0
    } else {
        free_blocks(used, at, n - 1) + if used[at + n - 1] {
            0int
        } else {
            1
        }
    }
}

fn count_free(used: &Vec<bool>, at: u64, n: u64) -> (c: u64)
    requires
        at + n <= used@.len() <= u32::MAX,
    ensures
        c == free_blocks(used@, at as int, n as int),
        c <= n,
{
    let mut c: u64 = 0;
    let mut i: u64 = 0;
    while i < n
        invariant
            i <= n,
            at + n <= used@.len() <= u32::MAX,
            c == free_blocks(used@, at as int, i as int),
            c <= i,
        decreases n - i,
    {
        if !used[(at + i) as usize] {
            c = c + 1;
        }
        i = i + 1;
    }
    c
}

/// The inodes of a group that are used, the first `inodes` being so.
pub open spec fn used_inodes(x: Geometry, inodes: int, g: int) -> int {
    greatest(least(inodes - g * x.inodes_per_group, x.inodes_per_group as int), 0)
}

/// The directories with inodes in a group.
pub open spec fn group_dirs(s: Seq<NodeView>, x: Geometry, g: int) -> int
    decreases s.len(),
{
    if s.len() == 0 {
        0
    } else {
        let n = s.last();
        group_dirs(s.drop_last(), x, g) + if n.is_dir() && (n.nid - 1) / (
        x.inodes_per_group as int) == g {
            1int
        } else {
            0
        }
    }
}

fn count_dirs(list: &Vec<&Node>, x: &Geometry, g: u64) -> (c: u64)
    requires
        x.wf(),
        forall|k: int| 0 <= k < list@.len() ==> (#[trigger] ref_views(list@)[k]).nid >= 1,
    ensures
        c == group_dirs(ref_views(list@), *x, g as int),
{
    let ghost s = ref_views(list@);
    let mut c: u64 = 0;
    let mut i: usize = 0;
    assert(s.take(0) =~= Seq::empty());
    while i < list.len()
        invariant
            x.wf(),
            i <= list@.len() == s.len(),
            s == ref_views(list@),
            forall|k: int| 0 <= k < s.len() ==> (#[trigger] s[k]).nid >= 1,
            c == group_dirs(s.take(i as int), *x, g as int),
            c <= i,
        decreases list.len() - i,
    {
        let node = list[i];
        proof {
            assert(s[i as int] == node@);
            let t = s.take(i + 1);
            assert(t.drop_last() =~= s.take(i as int));
            assert(t.last() == node@);
        }
        if node.is_dir() && (node.nid - 1) / x.inodes_per_group == g {
            c = c + 1;
        }
        i += 1;
    }
    assert(s.take(i as int) =~= s);
    c
}

// ---------------------------------------------------------------------
// Superblock and descriptors
// ---------------------------------------------------------------------
/// What the metadata of a fresh image says: its sizes, which blocks are
/// used, and the nodes.
pub struct Census {
    pub x: Geometry,
    pub used: Seq<bool>,
    pub list: Seq<NodeView>,
}

impl Census {
    /// The inodes in use: the reserved ones, and one for each node.
    pub open spec fn inodes(self) -> int {
        self.list.len() + RESERVED_INODES
    }

    /// The inodes that there is room for.
    pub open spec fn total_inodes(self) -> int {
        self.x.groups() * self.x.inodes_per_group
    }

    /// The inodes that are free.
    pub open spec fn free_inodes(self) -> int {
        self.total_inodes() - self.inodes()
    }

    /// The blocks that are free.
    pub open spec fn free_blocks(self) -> int {
        free_blocks(self.used, 0, self.x.total as int)
    }
}

/// The superblock of a fresh image.
pub open spec fn ext4_super(c: Census, p: Superblock, shared: bool) -> Seq<u8> {
    let log = (log2(c.x.block as int) - 10) as u32;
    bytes32(c.total_inodes() as u32) + bytes32(c.x.total as u32) + zeros(4) + bytes32(
        c.free_blocks() as u32,
    ) + bytes32(c.free_inodes() as u32) + bytes32(c.x.first() as u32) + bytes32(log) + bytes32(log) + bytes32(
        c.x.blocks_per_group as u32,
    ) + bytes32(c.x.blocks_per_group as u32) + bytes32(c.x.inodes_per_group as u32) + zeros(12)
        + bytes16(EXT4_MAGIC) + zeros(18) + bytes32(1) + zeros(4) + bytes32(11) + bytes16(
        c.x.inode_size as u16,
    ) + zeros(2) + bytes32(p.compat & !COMPAT_RESIZE_INODE) + bytes32(INCOMPAT) + bytes32(
        if shared {
            (p.ro_compat & !(RO_SHARED_BLOCKS | RO_GDT_CSUM | RO_SPARSE_SUPER)) | RO_SHARED_BLOCKS
        } else {
            p.ro_compat & !(RO_SHARED_BLOCKS | RO_GDT_CSUM | RO_SPARSE_SUPER)
        },
    ) + zeros(150) + bytes16(32)
}

/// The descriptor of a group.
pub open spec fn descriptor(c: Census, g: int) -> Seq<u8> {
    bytes32(c.x.bitmap(g) as u32) + bytes32((c.x.bitmap(g) + 1) as u32) + bytes32(
        c.x.table(g) as u32,
    ) + bytes16(free_blocks(c.used, c.x.start(g), c.x.span(g)) as u16) + bytes16(
        (c.x.inodes_per_group - used_inodes(c.x, c.inodes(), g)) as u16,
    ) + bytes16(group_dirs(c.list, c.x, g) as u16) + zeros(14)
}

/// The descriptors of the first `n` groups.
pub open spec fn descriptors(c: Census, n: int) -> Seq<u8>
    decreases n,
{
    if n <= 0 {
        Seq::empty()
    } else {
        descriptors(c, n - 1) + descriptor(c, n - 1)
    }
}

/// The writes of the metadata of a group: a copy of the superblock and of
/// the descriptors, and its own bitmaps.
pub open spec fn group_writes(c: Census, p: Superblock, shared: bool, g: int) -> Seq<PatchView> {
    let block = c.x.block;
    seq![
        PatchView {
            at: c.x.start(g) * block + if g == 0 && block != 1024 {
                1024int
            } else {
                0
            },
            data: ext4_super(c, p, shared),
        },
        PatchView { at: (c.x.start(g) + 1) * block, data: descriptors(c, c.x.groups()) },
        PatchView {
            at: c.x.bitmap(g) * block,
            data: flags_bytes(block_flags(c.x, c.used, g)),
        },
        PatchView {
            at: (c.x.bitmap(g) + 1) * block,
            data: flags_bytes(inode_flags(c.x, c.inodes(), g)),
        },
    ]
}

/// The writes of the metadata of the first `n` groups.
pub open spec fn groups_writes(c: Census, p: Superblock, shared: bool, n: int) -> Seq<PatchView>
    decreases n,
{
    if n <= 0 {
        Seq::empty()
    } else {
        groups_writes(c, p, shared, n - 1) + group_writes(c, p, shared, n - 1)
    }
}

/// The metadata of a fresh image can be counted.
pub open spec fn countable_census(c: Census) -> bool {
    &&& c.x.wf()
    &&& c.x.roomy()
    &&& c.used.len() == c.x.total
    &&& c.inodes() <= c.total_inodes()
    &&& forall|k: int| 0 <= k < c.list.len() ==> (#[trigger] c.list[k]).nid >= 1
}

/// The sizes of a fresh image, which blocks are used, and the nodes.
pub struct Counted<'a> {
    pub x: Geometry,
    pub used: &'a Vec<bool>,
    pub list: &'a Vec<&'a Node>,
}

impl<'a> View for Counted<'a> {
    type V = Census;

    open spec fn view(&self) -> Census {
        Census { x: self.x, used: self.used@, list: ref_views(self.list@) }
    }
}

impl<'a> Counted<'a> {
    fn build_super(&self, p: &Superblock, shared: bool) -> (v: Vec<u8>)
        requires
            countable_census(self@),
        ensures
            v@ == ext4_super(self@, *p, shared),
            v@.len() == 256,
    {
        let groups = self.x.count_groups();
        proof {
            assert(groups * self.x.inodes_per_group <= 0xffff_ffff * 0x8_0000) by (nonlinear_arith)
                requires
                    0 <= groups <= 0xffff_ffff,
                    0 <= self.x.inodes_per_group <= 0x8_0000,
            ;
        }
        let inodes = groups * self.x.inodes_per_group;
        let free_inodes = inodes - (self.list.len() as u64 + RESERVED_INODES);
        let free = count_free(self.used, 0, self.x.total);
        let bits = log_two(self.x.block);
        proof {
            block_bits(self.x.block as int);
        }
        let log: u32 = bits as u32 - 10;
        let kept = p.ro_compat & !(RO_SHARED_BLOCKS | RO_GDT_CSUM | RO_SPARSE_SUPER);
        let ro_compat = if shared {
            kept | RO_SHARED_BLOCKS
        } else {
            kept
        };
        let mut out: Vec<u8> = Vec::new();
        push32(&mut out, inodes as u32);
        push32(&mut out, self.x.total as u32);
        pad_to(&mut out, 12);
        push32(&mut out, free as u32);
        push32(&mut out, free_inodes as u32);
        push32(&mut out, self.x.first_block() as u32);
        push32(&mut out, log);
        push32(&mut out, log);
        push32(&mut out, self.x.blocks_per_group as u32);
        push32(&mut out, self.x.blocks_per_group as u32);
        push32(&mut out, self.x.inodes_per_group as u32);
        pad_to(&mut out, 56);
        push16(&mut out, EXT4_MAGIC);
        pad_to(&mut out, 76);
        push32(&mut out, 1);
        pad_to(&mut out, 84);
        push32(&mut out, 11);
        push16(&mut out, self.x.inode_size as u16);
        pad_to(&mut out, 92);
        push32(&mut out, p.compat & !COMPAT_RESIZE_INODE);
        push32(&mut out, INCOMPAT);
        push32(&mut out, ro_compat);
        pad_to(&mut out, 254);
        push16(&mut out, 32);
        assert(out@ =~= ext4_super(self@, *p, shared));
        out
    }

    fn count_used_inodes(&self, g: u64) -> (n: u64)
        requires
            countable_census(self@),
            g < self@.x.groups(),
        ensures
            n == used_inodes(self@.x, self@.inodes(), g as int),
            n <= self@.x.inodes_per_group,
    {
        let x = &self.x;
        let groups = x.count_groups();
        proof {
            assert(g * x.inodes_per_group <= 0xffff_ffff * 0x8_0000) by (nonlinear_arith)
                requires
                    0 <= g <= 0xffff_ffff,
                    0 <= x.inodes_per_group <= 0x8_0000,
            ;
            assert(groups * x.inodes_per_group <= 0xffff_ffff * 0x8_0000) by (nonlinear_arith)
                requires
                    0 <= groups <= 0xffff_ffff,
                    0 <= x.inodes_per_group <= 0x8_0000,
            ;
        }
        let inodes = self.list.len() as u64 + RESERVED_INODES;
        let first = g * x.inodes_per_group;
        if inodes <= first {
            0
        } else if inodes - first < x.inodes_per_group {
            inodes - first
        } else {
            x.inodes_per_group
        }
    }

    fn count_group_free(&self, g: u64) -> (n: u64)
        requires
            countable_census(self@),
            g < self@.x.groups(),
        ensures
            n == free_blocks(self@.used, self@.x.start(g as int), self@.x.span(g as int)),
    {
        let x = &self.x;
        proof {
            group_bounds(*x, g as int);
        }
        let start = x.first_block() + g * x.blocks_per_group;
        let left = x.total - start;
        let span = if left < x.blocks_per_group {
            left
        } else {
            x.blocks_per_group
        };
        count_free(self.used, start, span)
    }

    fn find_bitmap(&self, g: u64) -> (n: u64)
        requires
            countable_census(self@),
            g < self@.x.groups(),
        ensures
            n == self@.x.bitmap(g as int),
            n <= 2 * u32::MAX + 1,
    {
        proof {
            group_bounds(self.x, g as int);
        }
        self.x.first_block() + g * self.x.blocks_per_group + 1 + self.x.count_descriptor_blocks()
    }

    fn push_descriptor(&self, g: u64, out: &mut Vec<u8>)
        requires
            countable_census(self@),
            g < self@.x.groups(),
        ensures
            final(out)@ == old(out)@ + descriptor(self@, g as int),
            final(out)@.len() == old(out)@.len() + 32,
    {
        let ghost before = out@;
        let bitmap = self.find_bitmap(g);
        let free = self.count_group_free(g);
        let inodes = self.count_used_inodes(g);
        let dirs = count_dirs(self.list, &self.x, g);
        push32(out, bitmap as u32);
        push32(out, (bitmap + 1) as u32);
        push32(out, (bitmap + 2) as u32);
        push16(out, free as u16);
        push16(out, (self.x.inodes_per_group - inodes) as u16);
        push16(out, dirs as u16);
        let rest = zeroed(14);
        push_bytes(out, &rest);
        assert(out@ =~= before + descriptor(self@, g as int));
    }

    /// Builds the descriptors of all groups.
    fn build_descriptors(&self) -> (v: Vec<u8>)
        requires
            countable_census(self@),
        ensures
            v@ == descriptors(self@, self@.x.groups()),
            v@.len() <= 32 * u32::MAX,
    {
        let n = self.x.count_groups();
        let mut out: Vec<u8> = Vec::new();
        let mut g: u64 = 0;
        while g < n
            invariant
                g <= n,
                n == self@.x.groups(),
                countable_census(self@),
                n <= u32::MAX,
                out@ == descriptors(self@, g as int),
                out@.len() == 32 * g,
            decreases n - g,
        {
            self.push_descriptor(g, &mut out);
            g = g + 1;
        }
        out
    }

    /// Adds the writes of the metadata of all groups.
    pub fn push_groups(&self, p: &Superblock, shared: bool, out: &mut Vec<Patch>)
        requires
            countable_census(self@),
        ensures
            patch_views(final(out)@) == patch_views(old(out)@) + groups_writes(
                self@,
                *p,
                shared,
                self@.x.groups(),
            ),
            writes_fit(patch_views(old(out)@)) ==> writes_fit(patch_views(final(out)@)),
    {
        let ghost before = patch_views(out@);
        let n = self.x.count_groups();
        let head = self.build_super(p, shared);
        let table = self.build_descriptors();
        let mut g: u64 = 0;
        assert(before + groups_writes(self@, *p, shared, 0) =~= before);
        while g < n
            invariant
                g <= n,
                n == self@.x.groups(),
                countable_census(self@),
                writes_fit(before) ==> writes_fit(patch_views(out@)),
                head@.len() == 256,
                table@.len() <= 32 * u32::MAX,
                head@ == ext4_super(self@, *p, shared),
                table@ == descriptors(self@, self@.x.groups()),
                patch_views(out@) == before + groups_writes(self@, *p, shared, g as int),
            decreases n - g,
        {
            self.push_group(&head, &table, g, out);
            assert(patch_views(out@) =~= before + groups_writes(self@, *p, shared, g + 1));
            g = g + 1;
        }
    }

    fn push_group(&self, head: &Vec<u8>, table: &Vec<u8>, g: u64, out: &mut Vec<Patch>)
        requires
            countable_census(self@),
            g < self@.x.groups(),
            head@.len() == 256,
            table@.len() <= 32 * u32::MAX,
        ensures
            writes_fit(patch_views(old(out)@)) ==> writes_fit(patch_views(final(out)@)),
            patch_views(final(out)@) == patch_views(old(out)@) + seq![
                PatchView {
                    at: self@.x.start(g as int) * self@.x.block + if g == 0 && self@.x.block != 1024 {
                        1024int
                    } else {
                        0
                    },
                    data: head@,
                },
                PatchView {
                    at: (self@.x.start(g as int) + 1) * self@.x.block,
                    data: table@,
                },
                PatchView {
                    at: self@.x.bitmap(g as int) * self@.x.block,
                    data: flags_bytes(block_flags(self@.x, self@.used, g as int)),
                },
                PatchView {
                    at: (self@.x.bitmap(g as int) + 1) * self@.x.block,
                    data: flags_bytes(inode_flags(self@.x, self@.inodes(), g as int)),
                },
            ],
    {
        let ghost before = patch_views(out@);
        let x = &self.x;
        let groups = x.count_groups();
        proof {
            group_bounds(*x, g as int);
            assert(groups * x.inodes_per_group <= 0xffff_ffff * 0x8_0000) by (nonlinear_arith)
                requires
                    0 <= groups <= 0xffff_ffff,
                    0 <= x.inodes_per_group <= 0x8_0000,
            ;
        }
        let bitmap = self.find_bitmap(g);
        let inodes = self.list.len() as u64 + RESERVED_INODES;
        let blocks = pack_flags(&list_block_flags(x, self.used, g));
        let nodes = pack_flags(&list_inode_flags(x, inodes, g));
        let start = x.first_block() + g * x.blocks_per_group;
        let block = x.block;
        proof {
            assert(start * block <= 0xffff_ffff * 65536) by (nonlinear_arith)
                requires
                    0 <= start <= 0xffff_ffff,
                    0 <= block <= 65536,
            ;
            assert((start + 1) * block <= 0x1_0000_0000 * 65536) by (nonlinear_arith)
                requires
                    0 <= start + 1 <= 0x1_0000_0000,
                    0 <= block <= 65536,
            ;
            assert(bitmap * block <= 0x2_0000_0000 * 65536) by (nonlinear_arith)
                requires
                    0 <= bitmap <= 0x2_0000_0000,
                    0 <= block <= 65536,
            ;
            assert((bitmap + 1) * block <= 0x2_0000_0000 * 65536) by (nonlinear_arith)
                requires
                    0 <= bitmap + 1 <= 0x2_0000_0000,
                    0 <= block <= 65536,
            ;
        }
        let at = start * block + if g == 0 && block != 1024 {
            1024
        } else {
            0
        };
        push_fitting(out, at, copy_range(head, 0, head.len()));
        push_fitting(out, (start + 1) * block, copy_range(table, 0, table.len()));
        push_fitting(out, bitmap * block, blocks);
        push_fitting(out, (bitmap + 1) * block, nodes);
        proof {
            assert(head@.subrange(0, head@.len() as int) =~= head@);
            assert(table@.subrange(0, table@.len() as int) =~= table@);
            assert(patch_views(out@).len() == before.len() + 4);
        }
    }
}

/// The logarithm of a block size.
proof fn block_bits(block: int)
    requires
        1024 <= block <= 65536,
    ensures
        10 <= log2(block) <= 16,
{
    reveal_with_fuel(log2, 18);
}

} // verus!
