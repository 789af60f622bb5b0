//! What reading the parts of an ext4 image gives back of what was written.
use super::erofs_laws::{field16, field32};
use super::ext4_inode::{
    inode_bytes, inode_tail, is_short_link, label_area, label_fits, label_room, link_count,
    sector_count, Extents, INODE_EXTENTS,
};
use super::ext4_layout::{
    directory_image, names_fit, record_fits, record_length, record_room, records, records_from,
    Record,
};
use super::node::NodeView;
use crate::buf::{bytes16, bytes32, le16, le32, zeros};
use crate::error::Fault;
use crate::fs::ext4::dir::{entries_from, RawView};
use crate::fs::ext4::inode::{inode_fields, InodeView};
use crate::fs::ext4::selinux::{inode_label, selinux_name, INDEX_SECURITY, XATTR_MAGIC};
use crate::math::ceil_div_covers;
use crate::text::{nuls, padded_text, text_of, trim_both, trim_start};
use vstd::prelude::*;
use vstd::utf8::encode_utf8;

verus! {

// ---------------------------------------------------------------------
// Labels
// ---------------------------------------------------------------------
/// A NUL character behind a text does not change what is left of it.
pub proof fn trim_ignores_a_nul(s: Seq<char>)
    ensures
        trim_both(s + nuls(1)) == trim_both(s),
    decreases s.len(),
{
    let t = s + nuls(1);
    if s.len() == 0 {
        assert(t.drop_first() =~= Seq::empty());
        assert(trim_start(t.drop_first()) =~= Seq::empty());
        assert(trim_start(t) =~= Seq::empty());
        assert(trim_start(s) =~= Seq::empty());
    } else if s[0] == '\0' {
        assert(t.drop_first() =~= s.drop_first() + nuls(1));
        trim_ignores_a_nul(s.drop_first());
    } else {
        assert(trim_start(t) == t);
        assert(trim_start(s) == s);
        assert(t.drop_last() =~= s);
    }
}

/// The label that is read of an inode: none where it does not fit.
pub open spec fn kept_label(n: NodeView, inode_size: int) -> Option<Seq<char>> {
    match n.context {
        Some(c) if label_fits(c, inode_size) is Ok => Some(trim_both(c)),
        _ => None,
    }
}

proof fn label_parts(
    a: Seq<u8>,
    b: Seq<u8>,
    c: Seq<u8>,
    d: Seq<u8>,
    e: Seq<u8>,
    f: Seq<u8>,
    g: Seq<u8>,
    h: Seq<u8>,
    rest: Seq<u8>,
)
    requires
        a.len() == 2,
        b.len() == 26,
        c.len() == 4,
        d.len() == 2,
        e.len() == 2,
        f.len() == 4,
        g.len() == 4,
        h.len() == 4,
    ensures
        ({
            let x = a + b + c + d + e + f + g + h + rest;
            &&& x.subrange(0, 2) == a
            &&& x.subrange(28, 32) == c
            &&& x.subrange(32, 34) == d
            &&& x.subrange(34, 36) == e
            &&& x.subrange(36, 40) == f
            &&& x.subrange(40, 44) == g
            &&& x.skip(48) == rest
        }),
{
}

proof fn label_layout(c: Seq<char>, inode_size: int)
    requires
        label_fits(c, inode_size) is Ok,
        inode_size <= 65535,
    ensures
        ({
            let x = label_area(c, inode_size);
            let room = label_room(c);
            let value = encode_utf8(c);
            &&& x.len() == inode_size - 128
            &&& x.subrange(0, 2) == bytes16(28)
            &&& x.subrange(28, 32) == bytes32(XATTR_MAGIC)
            &&& x[32] == 7
            &&& x[33] == INDEX_SECURITY
            &&& x.subrange(34, 36) == bytes16((inode_size - 160 - room) as u16)
            &&& x.subrange(36, 40) == bytes32(0)
            &&& x.subrange(40, 44) == bytes32((value.len() + 1) as u32)
            &&& x.subrange(48, 55) == selinux_name()
            &&& x.subrange(
                inode_size - 128 - room,
                inode_size - 128 - room + value.len() + 1,
            ) == value + Seq::new(1, |i: int| 0u8)
        }),
{
    let value = encode_utf8(c);
    let room = label_room(c);
    ceil_div_covers(value.len() as int + 1, 4);
    let x = label_area(c, inode_size);
    let gap = inode_size - 184 - room;
    let tail = selinux_name() + seq![0u8] + zeros(gap) + value + zeros(room - value.len());
    let kind = seq![7u8, INDEX_SECURITY];
    let off = bytes16((inode_size - 160 - room) as u16);
    let len = bytes32((value.len() + 1) as u32);
    let head = bytes16(28) + zeros(26) + bytes32(XATTR_MAGIC) + kind + off + bytes32(0) + len
        + bytes32(0);
    five_join(head, selinux_name(), seq![0u8], zeros(gap), value, zeros(room - value.len()));
    assert(x == head + tail);
    label_parts(
        bytes16(28),
        zeros(26),
        bytes32(XATTR_MAGIC),
        kind,
        off,
        bytes32(0),
        len,
        bytes32(0),
        tail,
    );
    label_tail(selinux_name(), seq![0u8], gap, value, room);
    assert(x[32] == x.subrange(32, 34)[0]);
    assert(x[33] == x.subrange(32, 34)[1]);
    assert(x.subrange(48, 55) =~= x.skip(48).subrange(0, 7));
    let at = inode_size - 128 - room;
    let end = at + value.len() + 1;
    assert(x.subrange(at, end) =~= x.skip(48).subrange(at - 48, end - 48));
}

proof fn five_join(h: Seq<u8>, a: Seq<u8>, b: Seq<u8>, c: Seq<u8>, d: Seq<u8>, e: Seq<u8>)
    ensures
        h + a + b + c + d + e == h + (a + b + c + d + e),
{
    assert(h + a + b + c + d + e =~= h + (a + b + c + d + e));
}

proof fn label_tail(name: Seq<u8>, nul: Seq<u8>, gap: int, value: Seq<u8>, room: int)
    requires
        name.len() == 7,
        nul.len() == 1,
        0 <= gap,
        value.len() < room,
    ensures
        ({
            let t = name + nul + zeros(gap) + value + zeros(room - value.len());
            &&& t.len() == 8 + gap + room
            &&& t.subrange(0, 7) == name
            &&& t.subrange(8 + gap, 8 + gap + value.len() + 1) == value + Seq::new(1, |i: int| 0u8)
        }),
{
    let t = name + nul + zeros(gap) + value + zeros(room - value.len());
    assert(t.subrange(0, 7) =~= name);
    assert(t.subrange(8 + gap, 8 + gap + value.len() + 1) =~= value + Seq::new(1, |i: int| 0u8));
}

/// The label in an inode reads back.
pub proof fn labels_read_back(raw: Seq<u8>, c: Seq<char>)
    requires
        128 <= raw.len() <= 65535,
        label_fits(c, raw.len() as int) is Ok,
        raw.skip(128) == label_area(c, raw.len() as int),
    ensures
        inode_label(raw) == Some(trim_both(c)),
{
    let size = raw.len() as int;
    let x = label_area(c, size);
    let value = encode_utf8(c);
    let room = label_room(c);
    ceil_div_covers(value.len() as int + 1, 4);
    label_layout(c, size);
    assert(forall|i: int| 0 <= i < x.len() ==> #[trigger] x[i] == raw[128 + i]);
    assert(raw.subrange(128, 130) =~= x.subrange(0, 2));
    field16(raw, 128, 28);
    assert(raw.subrange(156, 160) =~= x.subrange(28, 32));
    field32(raw, 156, XATTR_MAGIC);
    assert(raw[160] == x[32]);
    assert(raw[161] == x[33]);
    let off = (size - 160 - room) as u16;
    assert(raw.subrange(162, 164) =~= x.subrange(34, 36));
    field16(raw, 162, off);
    assert(raw.subrange(164, 168) =~= x.subrange(36, 40));
    field32(raw, 164, 0);
    let len = (value.len() + 1) as u32;
    assert(raw.subrange(168, 172) =~= x.subrange(40, 44));
    field32(raw, 168, len);
    assert(raw.subrange(176, 183) =~= x.subrange(48, 55));
    let at = 160 + off;
    assert(raw.subrange(at, at + len) =~= x.subrange(at - 128, at - 128 + len));
    padded_text(c, 1);
    trim_ignores_a_nul(c);
}

/// An inode without a label reads back without one.
pub proof fn no_label_reads_back(raw: Seq<u8>)
    requires
        128 <= raw.len() <= 65535,
        raw.skip(128) == zeros(raw.len() - 128),
    ensures
        inode_label(raw) is None,
{
    assert(forall|i: int| 128 <= i < raw.len() ==> #[trigger] raw[i] == raw.skip(128)[i - 128]);
}

// ---------------------------------------------------------------------
// Inodes
// ---------------------------------------------------------------------
proof fn inode_parts(
    mode: Seq<u8>,
    uid: Seq<u8>,
    low: Seq<u8>,
    a: Seq<u8>,
    gid: Seq<u8>,
    links: Seq<u8>,
    sectors: Seq<u8>,
    flags: Seq<u8>,
    b: Seq<u8>,
    rest: Seq<u8>,
)
    requires
        mode.len() == 2,
        uid.len() == 2,
        low.len() == 4,
        a.len() == 16,
        gid.len() == 2,
        links.len() == 2,
        sectors.len() == 4,
        flags.len() == 4,
        b.len() == 4,
    ensures
        ({
            let x = mode + uid + low + a + gid + links + sectors + flags + b + rest;
            &&& x.subrange(0, 2) == mode
            &&& x.subrange(2, 4) == uid
            &&& x.subrange(4, 8) == low
            &&& x.subrange(24, 26) == gid
            &&& x.subrange(26, 28) == links
            &&& x.subrange(28, 32) == sectors
            &&& x.subrange(32, 36) == flags
            &&& x.skip(40) == rest
        }),
{
}

proof fn inode_rest(front: Seq<u8>, map: Seq<u8>, a: Seq<u8>, high: Seq<u8>, b: Seq<u8>, tail: Seq<u8>)
    requires
        front.len() == 40,
        map.len() == 60,
        a.len() == 8,
        high.len() == 4,
        b.len() == 16,
    ensures
        ({
            let x = front + (map + a + high + b + tail);
            &&& x.subrange(40, 100) == map
            &&& x.subrange(100, 108) == a
            &&& x.subrange(108, 112) == high
            &&& x.subrange(112, 128) == b
            &&& x.skip(128) == tail
            &&& x.len() == 128 + tail.len()
        }),
{
}

proof fn owner_parts(x: Seq<u8>, uid: Seq<u8>, gid: Seq<u8>)
    requires
        uid.len() == 2,
        gid.len() == 2,
        128 <= x.len(),
        x.subrange(112, 128) == zeros(8) + uid + gid + zeros(4),
    ensures
        x.subrange(120, 122) == uid,
        x.subrange(122, 124) == gid,
{
    let y = x.subrange(112, 128);
    assert(x.subrange(120, 122) =~= y.subrange(8, 10));
    assert(y.subrange(8, 10) =~= uid);
    assert(x.subrange(122, 124) =~= y.subrange(10, 12));
    assert(y.subrange(10, 12) =~= gid);
}

/// The map of an inode, filled up.
pub open spec fn inode_map(n: NodeView, s: Extents, leaves: Seq<u32>, block: int) -> Seq<u8> {
    let map = if is_short_link(n) {
        n.data()
    } else {
        super::ext4_inode::extent_root(s, leaves, block)
    };
    map + zeros(60 - map.len())
}

/// The fields of an inode read back.
pub proof fn inode_fields_read_back(
    n: NodeView,
    size: int,
    s: Extents,
    leaves: Seq<u32>,
    block: int,
    inode_size: int,
    context: Option<Seq<char>>,
)
    requires
        0 <= size <= u64::MAX,
        128 <= inode_size <= 65535,
        inode_map(n, s, leaves, block).len() == 60,
    ensures
        ({
            let raw = inode_bytes(n, size, s, leaves, block, inode_size);
            &&& raw.len() == inode_size
            &&& raw.skip(128) == inode_tail(n, inode_size)
            &&& le32(raw, 104) == 0
            &&& inode_fields(raw, context) == (InodeView {
                mode: n.mode,
                uid: n.uid,
                gid: n.gid,
                size: size as u64,
                flags: if is_short_link(n) {
                    0
                } else {
                    INODE_EXTENTS
                },
                block: inode_map(n, s, leaves, block),
                context,
            })
        }),
{
    let raw = inode_bytes(n, size, s, leaves, block, inode_size);
    let flags: u32 = if is_short_link(n) {
        0
    } else {
        INODE_EXTENTS
    };
    let low = (size % 0x1_0000_0000) as u32;
    let high = (size / 0x1_0000_0000) as u32;
    inode_splits(n, size, s, leaves, block, inode_size);
    field16(raw, 0, n.mode);
    field16(raw, 2, (n.uid % 0x1_0000) as u16);
    field32(raw, 4, low);
    field16(raw, 24, (n.gid % 0x1_0000) as u16);
    field32(raw, 32, flags);
    field32(raw, 108, high);
    let z = raw.subrange(100, 108);
    assert(z[4] == 0 && z[5] == 0 && z[6] == 0 && z[7] == 0);
    field16(raw, 120, (n.uid / 0x1_0000) as u16);
    field16(raw, 122, (n.gid / 0x1_0000) as u16);
}

/// The parts of an inode.
pub proof fn inode_splits(
    n: NodeView,
    size: int,
    s: Extents,
    leaves: Seq<u32>,
    block: int,
    inode_size: int,
)
    requires
        128 <= inode_size <= 65535,
        inode_map(n, s, leaves, block).len() == 60,
    ensures
        ({
            let raw = inode_bytes(n, size, s, leaves, block, inode_size);
            &&& raw.len() == inode_size
            &&& raw.subrange(0, 2) == bytes16(n.mode)
            &&& raw.subrange(2, 4) == bytes16((n.uid % 0x1_0000) as u16)
            &&& raw.subrange(4, 8) == bytes32((size % 0x1_0000_0000) as u32)
            &&& raw.subrange(24, 26) == bytes16((n.gid % 0x1_0000) as u16)
            &&& raw.subrange(26, 28) == bytes16(link_count(n) as u16)
            &&& raw.subrange(28, 32) == bytes32(
                if is_short_link(n) {
                    0
                } else {
                    sector_count(s, leaves.len() as int, block) as u32
                },
            )
            &&& raw.subrange(32, 36) == bytes32(
                if is_short_link(n) {
                    0
                } else {
                    INODE_EXTENTS
                },
            )
            &&& raw.subrange(40, 100) == inode_map(n, s, leaves, block)
            &&& raw.subrange(100, 108) == zeros(8)
            &&& raw.subrange(108, 112) == bytes32((size / 0x1_0000_0000) as u32)
            &&& raw.subrange(120, 122) == bytes16((n.uid / 0x1_0000) as u16)
            &&& raw.subrange(122, 124) == bytes16((n.gid / 0x1_0000) as u16)
            &&& raw.skip(128) == inode_tail(n, inode_size)
        }),
{
    let raw = inode_bytes(n, size, s, leaves, block, inode_size);
    let short = is_short_link(n);
    let map = if short {
        n.data()
    } else {
        super::ext4_inode::extent_root(s, leaves, block)
    };
    let flags: u32 = if short {
        0
    } else {
        INODE_EXTENTS
    };
    let sectors: u32 = if short {
        0
    } else {
        sector_count(s, leaves.len() as int, block) as u32
    };
    let low = bytes32((size % 0x1_0000_0000) as u32);
    let high = bytes32((size / 0x1_0000_0000) as u32);
    let tail = inode_tail(n, inode_size);
    tail_length(n, inode_size);
    let front = bytes16(n.mode) + bytes16((n.uid % 0x1_0000) as u16) + low + zeros(16) + bytes16((n.gid % 0x1_0000) as u16)
        + bytes16(link_count(n) as u16) + bytes32(sectors) + bytes32(flags) + zeros(4);
    let full = map + zeros(60 - map.len());
    let uid = bytes16((n.uid / 0x1_0000) as u16);
    let gid = bytes16((n.gid / 0x1_0000) as u16);
    let rest = full + zeros(8) + high + (zeros(8) + uid + gid + zeros(4)) + tail;
    assert(raw =~= front + rest);
    inode_parts(
        bytes16(n.mode),
        bytes16((n.uid % 0x1_0000) as u16),
        low,
        zeros(16),
        bytes16((n.gid % 0x1_0000) as u16),
        bytes16(link_count(n) as u16),
        bytes32(sectors),
        bytes32(flags),
        zeros(4),
        rest,
    );
    inode_rest(front, full, zeros(8), high, zeros(8) + uid + gid + zeros(4), tail);
    owner_parts(raw, uid, gid);
}

/// The links and the sectors of an inode, as they are written.
pub proof fn counts_of_inodes(
    n: NodeView,
    size: int,
    s: Extents,
    leaves: Seq<u32>,
    block: int,
    inode_size: int,
)
    requires
        128 <= inode_size <= 65535,
        inode_map(n, s, leaves, block).len() == 60,
    ensures
        ({
            let raw = inode_bytes(n, size, s, leaves, block, inode_size);
            let sectors = sector_count(s, leaves.len() as int, block);
            &&& raw.len() == inode_size
            &&& 0 <= link_count(n) <= u16::MAX ==> le16(raw, 26) == link_count(n)
            &&& is_short_link(n) ==> le32(raw, 28) == 0
            &&& !is_short_link(n) && 0 <= sectors <= u32::MAX ==> le32(raw, 28) == sectors
        }),
{
    let raw = inode_bytes(n, size, s, leaves, block, inode_size);
    inode_splits(n, size, s, leaves, block, inode_size);
    field16(raw, 26, link_count(n) as u16);
    field32(
        raw,
        28,
        if is_short_link(n) {
            0
        } else {
            sector_count(s, leaves.len() as int, block) as u32
        },
    );
}

proof fn tail_length(n: NodeView, inode_size: int)
    requires
        128 <= inode_size <= 65535,
    ensures
        inode_tail(n, inode_size).len() == inode_size - 128,
{
    match n.context {
        Some(c) => {
            if label_fits(c, inode_size) is Ok {
                label_layout(c, inode_size);
            }
        },
        None => {},
    }
}

/// The label of an inode reads back, where it fits.
pub proof fn inode_labels_read_back(raw: Seq<u8>, n: NodeView)
    requires
        128 <= raw.len() <= 65535,
        raw.skip(128) == inode_tail(n, raw.len() as int),
    ensures
        inode_label(raw) == kept_label(n, raw.len() as int),
{
    let size = raw.len() as int;
    match n.context {
        Some(c) => {
            if label_fits(c, size) is Ok {
                labels_read_back(raw, c);
            } else {
                no_label_reads_back(raw);
            }
        },
        None => {
            no_label_reads_back(raw);
        },
    }
}

// ---------------------------------------------------------------------
// Directories
// ---------------------------------------------------------------------
/// A record as it is read.
pub open spec fn record_view(r: Record) -> RawView {
    RawView { inode: r.inode, file_type: r.kind, name: text_of(r.name) }
}

/// The records as they are read.
pub open spec fn record_views(s: Seq<Record>, i: int) -> Seq<RawView> {
    Seq::new((s.len() - i) as nat, |k: int| record_view(s[i + k]))
}

proof fn record_parts(inode: Seq<u8>, len: Seq<u8>, kind: Seq<u8>, name: Seq<u8>, pad: Seq<u8>, rest: Seq<u8>)
    requires
        inode.len() == 4,
        len.len() == 2,
        kind.len() == 2,
    ensures
        ({
            let x = inode + len + kind + name + pad + rest;
            &&& x.subrange(0, 4) == inode
            &&& x.subrange(4, 6) == len
            &&& x[6] == kind[0]
            &&& x[7] == kind[1]
            &&& x.subrange(8, 8int + name.len()) == name
            &&& x.skip(8int + name.len() + pad.len()) == rest
        }),
{
    let x = inode + len + kind + name + pad + rest;
    assert(x.subrange(0, 4) =~= inode);
    assert(x.subrange(4, 6) =~= len);
    assert(x.subrange(8, 8int + name.len()) =~= name);
    assert(x.skip(8int + name.len() + pad.len()) =~= rest);
}

/// Reading records gives them back, from any of them on.
proof fn records_read(s: Seq<Record>, i: int, at: int, block: int, data: Seq<u8>)
    requires
        0 <= i <= s.len(),
        0 <= at <= data.len(),
        1024 <= block <= 32768,
        block % 4 == 0,
        at % 4 == 0,
        forall|k: int|
            0 <= k < s.len() ==> (#[trigger] s[k]).name.len() <= 255 && s[k].inode != 0,
        i < s.len() ==> (at % block == 0 || at % block + record_room(s[i]) <= block),
        i == s.len() ==> at % block == 0,
        data.skip(at) == records_from(s, i, at, block),
    ensures
        entries_from(data, at) == Ok::<Seq<RawView>, Fault>(record_views(s, i)),
    decreases s.len() - i,
{
    if i == s.len() {
        assert(data.skip(at).len() == 0);
        assert(record_views(s, i) =~= Seq::empty());
    } else {
        let r = s[i];
        let length = record_length(s, i, at, block);
        record_fits(s, i, at, block);
        ceil_div_covers(8 + r.name.len() as int, 4);
        vstd::arithmetic::div_mod::lemma_mod_bound(at, block);
        vstd::arithmetic::div_mod::lemma_mod_bound(at + record_room(r), block);
        let rest = records_from(s, i + 1, at + length, block);
        let x = data.skip(at);
        let pad = zeros(length - 8 - r.name.len());
        let kind = seq![r.name.len() as u8, r.kind];
        assert(x =~= bytes32(r.inode) + bytes16(length as u16) + kind + r.name + pad + rest);
        record_parts(bytes32(r.inode), bytes16(length as u16), kind, r.name, pad, rest);
        assert(data.subrange(at, at + 4) =~= x.subrange(0, 4));
        field32(data, at, r.inode);
        assert(data.subrange(at + 4, at + 6) =~= x.subrange(4, 6));
        field16(data, at + 4, length as u16);
        assert(data[at + 6] == x[6]);
        assert(data[at + 7] == x[7]);
        assert(data.subrange(at + 8, at + 8 + r.name.len()) =~= x.subrange(8, 8int + r.name.len()));
        assert(data.skip(at + length) =~= x.skip(length));
        records_read(s, i + 1, at + length, block, data);
        assert(record_views(s, i) =~= seq![record_view(r)] + record_views(s, i + 1));
    }
}

/// Reading a directory gives back its records: the directory itself, its
/// parent and its children. Blocks are smaller than the largest that can be
/// laid out: the length of a record that takes a whole block has to fit into
/// two bytes.
pub proof fn ext4_directories_read_back(n: NodeView, block: int)
    requires
        1024 <= block <= 32768,
        block % 4 == 0,
        names_fit(n),
        1 <= n.nid <= u32::MAX,
        1 <= n.parent_nid <= u32::MAX,
        forall|k: int|
            0 <= k < n.children.len() ==> 1 <= (#[trigger] n.children[k]).nid <= u32::MAX,
    ensures
        entries_from(directory_image(n, block), 0) == Ok::<Seq<RawView>, Fault>(
            record_views(records(n), 0),
        ),
{
    let s = records(n);
    assert forall|k: int| 0 <= k < s.len() implies (#[trigger] s[k]).name.len() <= 255 && s[k].inode
        != 0 by {
        if k >= 2 {
            assert(encode_utf8(n.children[k - 2].name).len() <= 255);
        }
    }
    let data = directory_image(n, block);
    assert(data.skip(0) =~= data);
    records_read(s, 0, 0, block, data);
}

} // verus!
