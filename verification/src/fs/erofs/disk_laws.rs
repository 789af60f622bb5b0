//! What the structures of an EROFS image are, said of the bytes that hold them.
use super::inode::{data_of, data_start, inode_fields, inode_of, inode_offset, Inode};
use super::xattr::{
    area_entries, entries_from, entry_at, first_label, selinux_of, shared_from, shared_of,
    XattrView,
};
use super::{superblock_of, SuperView, Superblock};
use crate::buf::{
    bytes16, bytes32, bytes64, le16, le16_stands, le32, le32_stands, le64, le64_stands, zeros,
};
use crate::error::Fault;
use crate::fs::ext4::selinux::selinux_name;
use crate::image::disk_read;
use crate::math::{align_up, ceil_div_covers};
use crate::text::{text_of, trim_both};
use vstd::arithmetic::power2::pow2;
use vstd::prelude::*;

verus! {

// ---------------------------------------------------------------------
// Superblocks
// ---------------------------------------------------------------------
/// A superblock is what its bytes say: the magic stands in front; the size of a
/// block is the power of two whose exponent stands at byte 12.
pub proof fn superblocks_are_their_bytes(x: Seq<u8>, blocks: u32, v: SuperView)
    requires
        x.len() == 128,
        x.subrange(0, 4) == bytes32(0xe0f5_e1e2),
        x.subrange(8, 12) == bytes32(v.feature_compat),
        9 <= x[12] <= 20,
        v.block_size == pow2(x[12] as nat),
        v.root_nid <= u16::MAX,
        x.subrange(14, 16) == bytes16(v.root_nid as u16),
        x.subrange(16, 24) == bytes64(v.inodes),
        x.subrange(24, 32) == bytes64(v.build_time),
        x.subrange(32, 36) == bytes32(v.build_nsec),
        blocks > 0,
        x.subrange(36, 40) == bytes32(blocks),
        v.meta_blkaddr <= u32::MAX,
        x.subrange(40, 44) == bytes32(v.meta_blkaddr as u32),
        v.xattr_blkaddr <= u32::MAX,
        x.subrange(44, 48) == bytes32(v.xattr_blkaddr as u32),
        x.subrange(64, 80) == v.volume,
        x.subrange(80, 84) == bytes32(v.feature_incompat),
        x.subrange(100, 104) == bytes32(v.feature_ro_compat),
    ensures
        superblock_of(x) == Ok::<SuperView, Fault>(v),
{
    le32_stands(x, 0, 0xe0f5_e1e2);
    le32_stands(x, 8, v.feature_compat);
    le16_stands(x, 14, v.root_nid as u16);
    le64_stands(x, 16, v.inodes);
    le64_stands(x, 24, v.build_time);
    le32_stands(x, 32, v.build_nsec);
    le32_stands(x, 36, blocks);
    le32_stands(x, 40, v.meta_blkaddr as u32);
    le32_stands(x, 44, v.xattr_blkaddr as u32);
    le32_stands(x, 80, v.feature_incompat);
    le32_stands(x, 100, v.feature_ro_compat);
}

// ---------------------------------------------------------------------
// Inodes
// ---------------------------------------------------------------------
/// What the body of an inode says. The lowest bit of its first number tells
/// whether it is extended, with 64 bytes, or compact, with 32; the three bits
/// above it are its layout. `count` are the words of its attributes.
#[verifier::opaque]
pub open spec fn body_says(x: Seq<u8>, n: Inode, format: u16, count: u16) -> bool {
    &&& x.subrange(0, 2) == bytes16(format)
    &&& x.subrange(2, 4) == bytes16(count)
    &&& x.subrange(4, 6) == bytes16(n.mode)
    &&& x.subrange(16, 20) == bytes32(n.raw_blkaddr)
    &&& n.inode_size == 32 || n.inode_size == 64
    &&& n.layout < 8
    &&& if n.inode_size == 64 {
        &&& format == 2 * n.layout + 1
        &&& x.subrange(8, 16) == bytes64(n.size)
        &&& x.subrange(24, 28) == bytes32(n.uid)
        &&& x.subrange(28, 32) == bytes32(n.gid)
    } else {
        &&& format == 2 * n.layout
        &&& n.size <= u32::MAX
        &&& n.uid <= u16::MAX
        &&& n.gid <= u16::MAX
        &&& x.subrange(8, 12) == bytes32(n.size as u32)
        &&& x.subrange(24, 26) == bytes16(n.uid as u16)
        &&& x.subrange(26, 28) == bytes16(n.gid as u16)
    }
}

proof fn body_numbers(x: Seq<u8>, n: Inode, format: u16, count: u16)
    requires
        x.len() == 64,
        body_says(x, n, format, count),
    ensures
        n.inode_size == 32 || n.inode_size == 64,
        le16(x, 0) % 2 == 1 <==> n.inode_size == 64,
        le16(x, 0) / 2 % 8 == n.layout,
        le16(x, 2) == count,
        le16(x, 4) == n.mode,
        le32(x, 16) == n.raw_blkaddr,
        n.inode_size == 64 ==> le64(x, 8) == n.size && le32(x, 24) == n.uid && le32(x, 28) == n.gid,
        n.inode_size == 32 ==> le32(x, 8) == n.size && le16(x, 24) == n.uid && le16(x, 26) == n.gid,
{
    reveal(body_says);
    le16_stands(x, 0, format);
    le16_stands(x, 2, count);
    le16_stands(x, 4, n.mode);
    le32_stands(x, 16, n.raw_blkaddr);
    if n.inode_size == 64 {
        le64_stands(x, 8, n.size);
        le32_stands(x, 24, n.uid);
        le32_stands(x, 28, n.gid);
    } else {
        le32_stands(x, 8, n.size as u32);
        le16_stands(x, 24, n.uid as u16);
        le16_stands(x, 26, n.gid as u16);
    }
}

/// An inode is what its body says. Its attributes stand behind it, `count` words
/// of four bytes and eight bytes more where there are any, and behind these, at a
/// multiple of four bytes, its data: with compressed data, at a multiple of eight
/// bytes, the head of its index, which says how it is packed.
pub proof fn inodes_are_their_bytes(
    fs: Superblock,
    d: Seq<u8>,
    n: Inode,
    format: u16,
    count: u16,
    highest: u8,
)
    requires
        d.len() <= u64::MAX,
        n.nid < 0x800_0000_0000_0000,
        n.xattr_size == if count == 0 {
            0
        } else {
            8 + 4 * count
        },
        ({
            let at = fs.meta_blkaddr * fs.block_size + n.nid * 32;
            let end = at + n.inode_size + n.xattr_size;
            &&& at + 64 <= d.len()
            &&& body_says(d.subrange(at, at + 64), n, format, count)
            &&& if n.layout == 3 {
                &&& n.data_offset % 8 == 0
                &&& 0 <= n.data_offset - end < 8
                &&& n.data_offset + 8 <= d.len()
                &&& d.subrange(n.data_offset + 4, n.data_offset + 6) == bytes16(n.advise)
                &&& d[n.data_offset + 6] == n.algorithm_type
                &&& d[n.data_offset + 7] == 8 * highest + n.cluster_bits
                &&& n.cluster_bits < 8
            } else {
                &&& n.data_offset % 4 == 0
                &&& 0 <= n.data_offset - end < 4
                &&& n.advise == 0 && n.algorithm_type == 0 && n.cluster_bits == 0
            }
        }),
    ensures
        inode_of(fs, d, n.nid) == Ok::<Inode, Fault>(n),
{
    let at = inode_offset(fs, n.nid);
    assert(fs.meta_blkaddr * fs.block_size >= 0) by (nonlinear_arith)
        requires
            fs.meta_blkaddr >= 0,
            fs.block_size >= 0,
    ;
    let x = d.subrange(at, at + 64);
    assert(disk_read(d, at, 64) == Ok::<Seq<u8>, Fault>(x));
    body_numbers(x, n, format, count);
    let end = at + n.inode_size + n.xattr_size;
    let o = n.data_offset as int;
    data_is_behind(at, x, end, o);
    if n.layout == 3 {
        let header = d.subrange(o, o + 8);
        assert(disk_read(d, o, 8) == Ok::<Seq<u8>, Fault>(header));
        assert(header.subrange(4, 6) =~= d.subrange(o + 4, o + 6));
        le16_stands(header, 4, n.advise);
        assert(header[6] == d[o + 6] && header[7] == d[o + 7]);
        fields_are_known(n, at, x, header);
    } else {
        let header = zeros(8);
        assert(le16(header, 4) == 0);
        fields_are_known(n, at, x, header);
    }
}

proof fn data_is_behind(at: int, x: Seq<u8>, end: int, o: int)
    requires
        0 <= at,
        end == at + (if le16(x, 0) % 2 == 1 {
            64int
        } else {
            32
        }) + (if le16(x, 2) == 0 {
            0
        } else {
            8 + 4 * le16(x, 2)
        }),
        if le16(x, 0) / 2 % 8 == 3 {
            o % 8 == 0 && 0 <= o - end < 8
        } else {
            o % 4 == 0 && 0 <= o - end < 4
        },
    ensures
        data_start(at, x) == o,
{
    ceil_div_covers(end, 8);
    ceil_div_covers(end, 4);
    if le16(x, 0) / 2 % 8 == 3 {
        assert(align_up(end, 8) == o);
    } else {
        assert(align_up(end, 4) == o);
    }
}

proof fn fields_are_known(n: Inode, at: int, x: Seq<u8>, header: Seq<u8>)
    requires
        data_start(at, x) == n.data_offset,
        n.inode_size == 32 || n.inode_size == 64,
        le16(x, 0) % 2 == 1 <==> n.inode_size == 64,
        le16(x, 0) / 2 % 8 == n.layout,
        le16(x, 4) == n.mode,
        le32(x, 16) == n.raw_blkaddr,
        n.inode_size == 64 ==> le64(x, 8) == n.size && le32(x, 24) == n.uid && le32(x, 28) == n.gid,
        n.inode_size == 32 ==> le32(x, 8) == n.size && le16(x, 24) == n.uid && le16(x, 26) == n.gid,
        n.xattr_size == if le16(x, 2) == 0 {
            0
        } else {
            8 + 4 * le16(x, 2)
        },
        le16(header, 4) == n.advise,
        header[6] == n.algorithm_type,
        header[7] % 8 == n.cluster_bits,
    ensures
        inode_fields(n.nid, at, x, header) == n,
{
}

// ---------------------------------------------------------------------
// Content
// ---------------------------------------------------------------------
/// The content of a file that is stored plain stands in the blocks from the one
/// that its inode names on.
pub proof fn plain_files_stand_in_blocks(fs: Superblock, d: Seq<u8>, n: Inode, c: Seq<u8>)
    requires
        d.len() <= u64::MAX,
        n.layout == 0,
        n.size == c.len(),
        c.len() <= 17179869184,
        c.len() <= usize::MAX,
        n.raw_blkaddr * fs.block_size + c.len() <= d.len(),
        d.subrange(n.raw_blkaddr * fs.block_size, n.raw_blkaddr * fs.block_size + c.len()) == c,
    ensures
        data_of(fs, d, n) == Ok::<Seq<u8>, Fault>(c),
{
    if c.len() == 0 {
        assert(c =~= Seq::empty());
    }
}

/// The content of a file with an inline tail: its whole blocks stand from the
/// block that its inode names on, and what is left stands behind the inode. A
/// file without whole blocks stands behind the inode as a whole.
pub proof fn inline_files_stand_behind_inodes(
    fs: Superblock,
    d: Seq<u8>,
    n: Inode,
    blocks: int,
    tail: Seq<u8>,
)
    requires
        d.len() <= u64::MAX,
        0 < fs.block_size,
        n.layout == 2,
        0 <= blocks,
        tail.len() < fs.block_size,
        n.size == blocks * fs.block_size + tail.len(),
        n.size <= 17179869184,
        n.size <= usize::MAX,
        n.raw_blkaddr == 0 ==> blocks == 0,
        n.raw_blkaddr * fs.block_size + blocks * fs.block_size <= d.len(),
        n.data_offset + tail.len() <= d.len(),
        d.subrange(n.data_offset as int, n.data_offset + tail.len()) == tail,
    ensures
        data_of(fs, d, n) == Ok::<Seq<u8>, Fault>(
            d.subrange(
                n.raw_blkaddr * fs.block_size,
                n.raw_blkaddr * fs.block_size + blocks * fs.block_size,
            ) + tail,
        ),
{
    let bs = fs.block_size as int;
    let size = n.size as int;
    let at = n.raw_blkaddr * bs;
    vstd::arithmetic::div_mod::lemma_fundamental_div_mod_converse(
        size,
        bs,
        blocks,
        tail.len() as int,
    );
    assert(bs * blocks == blocks * bs) by (nonlinear_arith);
    assert(at >= 0 && blocks * bs >= 0) by (nonlinear_arith)
        requires
            at == n.raw_blkaddr * bs,
            n.raw_blkaddr >= 0,
            blocks >= 0,
            bs >= 0,
    ;
    assert(blocks == 0 ==> blocks * bs == 0) by (nonlinear_arith);
    assert(blocks > 0 ==> blocks * bs > 0) by (nonlinear_arith)
        requires
            bs > 0,
    ;
    let head = d.subrange(at, at + blocks * bs);
    if blocks == 0 {
        assert(head =~= Seq::empty());
        assert(head + tail =~= tail);
        assert(Seq::<u8>::empty() + tail =~= tail);
    }
    if tail.len() == 0 {
        assert(head + tail =~= head);
        assert(head + Seq::<u8>::empty() =~= head);
    }
    if size == 0 {
        assert(head + tail =~= Seq::empty());
    }
}

// ---------------------------------------------------------------------
// Labels
// ---------------------------------------------------------------------
/// The entry of an attribute, without the padding behind it.
pub open spec fn attribute_bytes(v: XattrView) -> Seq<u8> {
    seq![v.name.len() as u8, v.index] + bytes16(v.value.len() as u16) + v.name + v.value
}

/// How long an entry is, with the padding behind it.
pub open spec fn attribute_length(v: XattrView) -> int {
    let n = 4 + v.name.len() + v.value.len();
    if n % 4 == 0 {
        n as int
    } else {
        n + 4 - n % 4
    }
}

/// The entry of the attribute stands at a place.
pub open spec fn attribute_stands(x: Seq<u8>, at: int, v: XattrView) -> bool {
    let n = 4 + v.name.len() + v.value.len();
    &&& 0 <= at
    &&& at % 4 == 0
    &&& v.name.len() <= 255
    &&& v.value.len() <= 65535
    &&& at + attribute_length(v) <= x.len()
    &&& x.subrange(at, at + n) == attribute_bytes(v)
}

/// The entries of the attributes stand one behind the other, and fill the rest.
pub open spec fn attributes_stand(x: Seq<u8>, at: int, s: Seq<XattrView>) -> bool
    decreases s.len(),
{
    if s.len() == 0 {
        at == x.len()
    } else {
        attribute_stands(x, at, s[0]) && attributes_stand(
            x,
            at + attribute_length(s[0]),
            s.drop_first(),
        )
    }
}

proof fn attribute_fields(x: Seq<u8>, at: int, v: XattrView)
    requires
        attribute_stands(x, at, v),
    ensures
        entry_at(x, at) == Ok::<(XattrView, int), Fault>((v, at + attribute_length(v))),
        x[at] == v.name.len(),
        x[at + 1] == v.index,
        le16(x, at + 2) == v.value.len(),
{
    let n = (4 + v.name.len() + v.value.len()) as int;
    let b = attribute_bytes(v);
    let k = seq![v.name.len() as u8, v.index];
    let l = v.name.len() as int;
    attribute_parts(k, bytes16(v.value.len() as u16), v.name, v.value);
    assert(b.subrange(0, 2)[0] == b[0] && b.subrange(0, 2)[1] == b[1]);
    assert(x[at] == b[0]);
    assert(x[at + 1] == b[1]);
    assert(x.subrange(at + 2, at + 4) =~= b.subrange(2, 4));
    le16_stands(x, at + 2, v.value.len() as u16);
    assert(x.subrange(at + 4, at + 4 + l) =~= b.subrange(4, 4 + l));
    assert(x.subrange(at + 4 + l, at + n) =~= b.subrange(4 + l, n));
    ceil_div_covers(at + n, 4);
    assert(align_up(at + n, 4) == at + attribute_length(v));
}

proof fn attribute_parts(a: Seq<u8>, b: Seq<u8>, c: Seq<u8>, e: Seq<u8>)
    requires
        a.len() == 2,
        b.len() == 2,
    ensures
        ({
            let x = a + b + c + e;
            &&& x.len() == 4 + c.len() + e.len()
            &&& x.subrange(0, 2) == a
            &&& x.subrange(2, 4) == b
            &&& x.subrange(4, 4 + c.len() as int) == c
            &&& x.subrange(4 + c.len() as int, x.len() as int) == e
        }),
{
}

proof fn inline_attributes(x: Seq<u8>, at: int, s: Seq<XattrView>)
    requires
        0 <= at,
        attributes_stand(x, at, s),
    ensures
        entries_from(x, at) == Ok::<Seq<XattrView>, Fault>(s),
    decreases s.len(),
{
    if s.len() > 0 {
        attribute_fields(x, at, s[0]);
        inline_attributes(x, at + attribute_length(s[0]), s.drop_first());
        assert(seq![s[0]] + s.drop_first() =~= s);
    } else {
        assert(s =~= Seq::empty());
    }
}

/// A shared attribute stands in the table of shared attributes, at four times its
/// number.
proof fn shared_attribute(fs: Superblock, d: Seq<u8>, id: u32, v: XattrView)
    requires
        d.len() <= u64::MAX,
        0 < v.name.len(),
        v.index != 0,
        (fs.xattr_blkaddr * fs.block_size) % 4 == 0,
        attribute_stands(d, fs.xattr_blkaddr * fs.block_size + 4 * id, v),
    ensures
        shared_of(fs, d, id) == Ok::<XattrView, Fault>(v),
{
    let at = fs.xattr_blkaddr * fs.block_size + 4 * id;
    let n = (4 + v.name.len() + v.value.len()) as int;
    attribute_fields(d, at, v);
    let head = d.subrange(at, at + 4);
    assert(disk_read(d, at, 4) == Ok::<Seq<u8>, Fault>(head));
    crate::buf::le_in_window(d, at, head, 2);
    ceil_div_covers(n, 4);
    let length = attribute_length(v);
    assert(align_up(n, 4) == length);
    let raw = d.subrange(at, at + length);
    assert(disk_read(d, at, length) == Ok::<Seq<u8>, Fault>(raw));
    assert(raw.subrange(0, n) =~= d.subrange(at, at + n));
    attribute_fields(raw, 0, v);
}

/// The words of an area name shared attributes.
pub open spec fn shared_stand(
    fs: Superblock,
    d: Seq<u8>,
    area: Seq<u8>,
    ids: Seq<u32>,
    s: Seq<XattrView>,
) -> bool {
    &&& ids.len() == s.len()
    &&& 12 + 4 * ids.len() <= area.len()
    &&& forall|i: int|
        #![trigger ids[i]]
        0 <= i < ids.len() ==> {
            &&& area.subrange(12 + i * 4, 16 + i * 4) == bytes32(ids[i])
            &&& 0 < s[i].name.len()
            &&& s[i].index != 0
            &&& attribute_stands(d, fs.xattr_blkaddr * fs.block_size + 4 * ids[i], s[i])
        }
}

proof fn shared_attributes(
    fs: Superblock,
    d: Seq<u8>,
    area: Seq<u8>,
    ids: Seq<u32>,
    s: Seq<XattrView>,
    i: int,
)
    requires
        d.len() <= u64::MAX,
        (fs.xattr_blkaddr * fs.block_size) % 4 == 0,
        shared_stand(fs, d, area, ids, s),
        0 <= i <= ids.len(),
    ensures
        shared_from(fs, d, area, i, ids.len() as int) == Ok::<Seq<XattrView>, Fault>(s.skip(i)),
    decreases ids.len() - i,
{
    if i < ids.len() {
        shared_attributes(fs, d, area, ids, s, i + 1);
        assert(area.subrange(12 + i * 4, 16 + i * 4) == bytes32(ids[i]));
        le32_stands(area, 12 + i * 4, ids[i]);
        shared_attribute(fs, d, ids[i], s[i]);
        assert(seq![s[i]] + s.skip(i + 1) =~= s.skip(i));
    } else {
        assert(s.skip(i) =~= Seq::empty());
    }
}

proof fn labels_come_first(s: Seq<XattrView>, k: int)
    requires
        0 <= k <= s.len(),
        forall|j: int| 0 <= j < k ==> !is_the_label(#[trigger] s[j]),
    ensures
        k < s.len() && is_the_label(s[k]) ==> first_label(s) == Some(
            trim_both(text_of(s[k].value)),
        ),
        k == s.len() ==> first_label(s) is None,
    decreases s.len(),
{
    assert(selinux_name() =~= seq![0x73u8, 0x65, 0x6c, 0x69, 0x6e, 0x75, 0x78]);
    if k > 0 {
        assert(!is_the_label(s[0]));
        let rest = s.drop_first();
        assert forall|j: int| 0 <= j < k - 1 implies !is_the_label(#[trigger] rest[j]) by {
            assert(rest[j] == s[j + 1]);
        }
        labels_come_first(rest, k - 1);
    }
}

/// The attribute is `security.selinux`.
pub open spec fn is_the_label(v: XattrView) -> bool {
    v.index == 6 && v.name == seq![0x73u8, 0x65, 0x6c, 0x69, 0x6e, 0x75, 0x78]
}

/// The label of a file: its attributes stand behind its inode, first the numbers
/// of those that are shared, which stand in a table of the image, then the others
/// themselves. The label is the text of the first one that is called
/// `security.selinux`; without one there is none.
pub proof fn labels_are_their_bytes(
    fs: Superblock,
    d: Seq<u8>,
    n: Inode,
    ids: Seq<u32>,
    shared: Seq<XattrView>,
    own: Seq<XattrView>,
    k: int,
)
    requires
        d.len() <= u64::MAX,
        n.nid < 0x800_0000_0000_0000,
        12 <= n.xattr_size <= crate::fs::erofs::xattr::MAX_AREA,
        (fs.xattr_blkaddr * fs.block_size) % 4 == 0,
        ids.len() <= u32::MAX,
        ({
            let at = fs.meta_blkaddr * fs.block_size + n.nid * 32 + n.inode_size;
            let area = d.subrange(at, at + n.xattr_size);
            &&& at + n.xattr_size <= d.len()
            &&& area.subrange(4, 8) == bytes32(ids.len() as u32)
            &&& shared_stand(fs, d, area, ids, shared)
            &&& attributes_stand(area, 12 + 4 * ids.len() as int, own)
        }),
        0 <= k <= (shared + own).len(),
        forall|j: int| 0 <= j < k ==> !is_the_label(#[trigger] (shared + own)[j]),
    ensures
        k < (shared + own).len() && is_the_label((shared + own)[k]) ==> selinux_of(fs, d, n)
            == Ok::<Option<Seq<char>>, Fault>(
            Some(trim_both(text_of((shared + own)[k].value))),
        ),
        k == (shared + own).len() ==> selinux_of(fs, d, n) == Ok::<Option<Seq<char>>, Fault>(None),
{
    assert(fs.meta_blkaddr * fs.block_size >= 0) by (nonlinear_arith)
        requires
            fs.meta_blkaddr >= 0,
            fs.block_size >= 0,
    ;
    let at = inode_offset(fs, n.nid) + n.inode_size;
    let area = d.subrange(at, at + n.xattr_size);
    assert(disk_read(d, at, n.xattr_size as int) == Ok::<Seq<u8>, Fault>(area));
    le32_stands(area, 4, ids.len() as u32);
    shared_attributes(fs, d, area, ids, shared, 0);
    assert(shared.skip(0) =~= shared);
    inline_attributes(area, 12 + 4 * ids.len() as int, own);
    assert(area_entries(fs, d, area) == Ok::<Seq<XattrView>, Fault>(shared + own));
    labels_come_first(shared + own, k);
}

} // verus!
