//! Edits of an EROFS image in its place: what was written reads back.
use super::erofs_laws::{bodies_read_back, field16, field32, field64};
use super::fresh_laws::holds;
use super::node::NodeView;
use super::overlay::{area_count, inode_body, repatched_inode};
use super::patch::{
    node_patches, owner_patches, patched, patches_arrive, untouched_bytes_stay, PatchView,
};
use super::source::content_of;
use crate::buf::{bytes16, bytes32, bytes64, le16, le32, le64, le_in_window, zeros};
use crate::error::Fault;
use crate::fs::erofs::inode::{
    data_start, inode_fields, inode_of, inode_offset, xattr_area, Inode, LAYOUT_COMPRESSED_COMPACT,
    LAYOUT_PLAIN, MAX_FILE_BUFFER,
};
use crate::fs::erofs::Superblock;
use crate::image::disk_read;
use vstd::prelude::*;

verus! {

// ---------------------------------------------------------------------
// Plans
// ---------------------------------------------------------------------
/// No patch of a plan covers a byte of another, and none reaches over the end
/// of the image.
pub open spec fn sound_plan(patches: Seq<PatchView>, size: int) -> bool {
    &&& forall|k: int|
        0 <= k < patches.len() ==> 0 <= (#[trigger] patches[k]).at && patches[k].at
            + patches[k].data.len() <= size
    &&& forall|i: int, j: int, p: int|
        0 <= i < j < patches.len() ==> !(#[trigger] patches[i].covers(p)
            && #[trigger] patches[j].covers(p))
}

/// Every patch of a sound plan is in the image.
pub proof fn sound_plans_arrive(d: Seq<u8>, patches: Seq<PatchView>, size: int, k: int)
    requires
        sound_plan(patches, size),
        0 <= k < patches.len(),
    ensures
        holds(patched(d, patches, size), patches[k].at, patches[k].data),
{
    let e = patched(d, patches, size);
    let w = patches[k];
    assert forall|i: int| 0 <= i < w.data.len() implies #[trigger] w.data[i] == e[w.at + i] by {
        let p = w.at + i;
        assert(w.covers(p));
        assert forall|j: int| k < j < patches.len() implies !(#[trigger] patches[j]).covers(p) by {
            assert(!(patches[k].covers(p) && patches[j].covers(p)));
        }
        patches_arrive(d, patches, k, p);
    }
    assert(e.subrange(w.at, w.at + w.data.len()) =~= w.data);
}

// ---------------------------------------------------------------------
// Inodes written whole
// ---------------------------------------------------------------------
proof fn plain_format(f: u16)
    ensures
        (f & 0xfff1) % 2 == f % 2,
        (f & 0xfff1) / 2 % 8 == 0,
{
    assert((f & 0xfff1) % 2 == f % 2 && (f & 0xfff1) / 2 % 8 == 0) by (bit_vector);
}

proof fn repatched_fields(
    x: Seq<u8>,
    nid: u64,
    mode: u16,
    size: u64,
    raw: u32,
    uid: u32,
    gid: u32,
    y: Seq<u8>,
)
    requires
        x.len() == 64,
        y.len() == 64,
        repatched_inode(x, nid, mode, size, raw, uid, gid) matches Ok(z) && z == y.subrange(
            0,
            z.len() as int,
        ),
    ensures
        le16(y, 0) == le16(x, 0) & 0xfff1,
        le16(y, 2) == le16(x, 2),
        le16(y, 4) == mode,
        le32(y, 16) == raw,
        le16(x, 0) % 2 == 1 ==> le64(y, 8) == size && le32(y, 24) == uid && le32(y, 28) == gid,
        le16(x, 0) % 2 != 1 ==> le32(y, 8) == size && le16(y, 24) == uid as u16 && le16(y, 26)
            == gid as u16,
{
    let z = repatched_inode(x, nid, mode, size, raw, uid, gid)->Ok_0;
    let extended = le16(x, 0) % 2 == 1;
    assert(z.len() == if extended {
        64int
    } else {
        32
    });
    assert forall|i: int| 0 <= i < z.len() implies y[i] == #[trigger] z[i] by {}
    assert(y.subrange(0, 2) =~= bytes16(le16(x, 0) & 0xfff1)) by {
        assert(z.subrange(0, 2) =~= bytes16(le16(x, 0) & 0xfff1));
    }
    field16(y, 0, le16(x, 0) & 0xfff1);
    assert(y[2] == z[2] && y[3] == z[3] && z[2] == x[2] && z[3] == x[3]);
    assert(y.subrange(4, 6) =~= bytes16(mode)) by {
        assert(z.subrange(4, 6) =~= bytes16(mode));
    }
    field16(y, 4, mode);
    assert(y.subrange(16, 20) =~= bytes32(raw)) by {
        assert(z.subrange(16, 20) =~= bytes32(raw));
    }
    field32(y, 16, raw);
    if extended {
        assert(y.subrange(8, 16) =~= bytes64(size)) by {
            assert(z.subrange(8, 16) =~= bytes64(size));
        }
        field64(y, 8, size);
        assert(y.subrange(24, 28) =~= bytes32(uid)) by {
            assert(z.subrange(24, 28) =~= bytes32(uid));
        }
        field32(y, 24, uid);
        assert(y.subrange(28, 32) =~= bytes32(gid)) by {
            assert(z.subrange(28, 32) =~= bytes32(gid));
        }
        field32(y, 28, gid);
    } else {
        assert(y.subrange(8, 12) =~= bytes32(size as u32)) by {
            assert(z.subrange(8, 12) =~= bytes32(size as u32));
        }
        field32(y, 8, size as u32);
        assert(y.subrange(24, 26) =~= bytes16(uid as u16)) by {
            assert(z.subrange(24, 26) =~= bytes16(uid as u16));
        }
        field16(y, 24, uid as u16);
        assert(y.subrange(26, 28) =~= bytes16(gid as u16)) by {
            assert(z.subrange(26, 28) =~= bytes16(gid as u16));
        }
        field16(y, 26, gid as u16);
    }
}

proof fn plain_start(at: int, x: Seq<u8>, y: Seq<u8>)
    requires
        le16(y, 2) == le16(x, 2),
        le16(y, 0) % 2 == le16(x, 0) % 2,
        le16(y, 0) / 2 % 8 == 0,
    ensures
        data_start(at, y) <= data_start(at, x),
{
}

/// The inode that the bytes `y` make, which are not those of a compressed
/// file.
proof fn plain_inode(sb: Superblock, e: Seq<u8>, nid: u64, y: Seq<u8>)
    requires
        inode_offset(sb, nid) + 64 <= e.len(),
        inode_offset(sb, nid) + 64 <= u64::MAX,
        y == e.subrange(inode_offset(sb, nid), inode_offset(sb, nid) + 64),
        le16(y, 0) / 2 % 8 == 0,
        data_start(inode_offset(sb, nid), y) <= u64::MAX,
    ensures
        inode_of(sb, e, nid) == Ok::<Inode, Fault>(
            inode_fields(nid, inode_offset(sb, nid), y, zeros(8)),
        ),
{
}

/// What an inode of the image says of the bytes that it is made of.
proof fn inode_bytes_are_there(sb: Superblock, d: Seq<u8>, nid: u64)
    requires
        inode_of(sb, d, nid) is Ok,
    ensures
        ({
            let at = inode_offset(sb, nid);
            let x = d.subrange(at, at + 64);
            let fi = inode_of(sb, d, nid)->Ok_0;
            &&& 0 <= at
            &&& at + 64 <= d.len()
            &&& at + 64 <= u64::MAX
            &&& data_start(at, x) <= u64::MAX
            &&& disk_read(d, at, 64) == Ok::<Seq<u8>, Fault>(x)
            &&& fi.inode_size == if le16(x, 0) % 2 == 1 {
                64u64
            } else {
                32u64
            }
            &&& fi.xattr_size == xattr_area(le16(x, 2) as int)
            &&& fi.layout == le16(x, 0) / 2 % 8
            &&& fi.data_offset == data_start(at, x)
        }),
{
}

/// An inode that was written again reads back: it has the mode, the owner and
/// the plain content that it was given, and its attributes where they were.
pub proof fn repatched_inodes_read_back(
    sb: Superblock,
    d: Seq<u8>,
    e: Seq<u8>,
    x: Seq<u8>,
    n: NodeView,
    size: u64,
    raw: u32,
    inode: Seq<u8>,
)
    requires
        inode_of(sb, d, n.nid) is Ok,
        disk_read(d, inode_offset(sb, n.nid), 64) == Ok::<Seq<u8>, Fault>(x),
        repatched_inode(x, n.nid, n.mode, size, raw, n.uid, n.gid) == Ok::<Seq<u8>, Fault>(inode),
        holds(e, inode_offset(sb, n.nid), inode),
        d.len() <= e.len(),
    ensures
        inode_of(sb, e, n.nid) matches Ok(fi) && {
            let before = inode_of(sb, d, n.nid)->Ok_0;
            &&& fi.nid == n.nid
            &&& fi.mode == n.mode
            &&& fi.uid == n.uid
            &&& fi.gid == n.gid
            &&& fi.size == size
            &&& fi.layout == LAYOUT_PLAIN
            &&& fi.raw_blkaddr == raw
            &&& fi.inode_size == before.inode_size
            &&& fi.xattr_size == before.xattr_size
        },
{
    let at = inode_offset(sb, n.nid);
    inode_bytes_are_there(sb, d, n.nid);
    let y = e.subrange(at, at + 64);
    assert(inode.len() <= 64);
    assert(inode =~= y.subrange(0, inode.len() as int)) by {
        assert(e.subrange(at, at + inode.len()) =~= inode);
    }
    repatched_fields(x, n.nid, n.mode, size, raw, n.uid, n.gid, y);
    plain_format(le16(x, 0));
    plain_start(at, x, y);
    plain_inode(sb, e, n.nid, y);
}

/// The content of a plain file that stands in its blocks.
pub proof fn plain_content_reads_back(
    sb: Superblock,
    e: Seq<u8>,
    nid: u64,
    fi: Inode,
    data: Seq<u8>,
)
    requires
        inode_of(sb, e, nid) == Ok::<Inode, Fault>(fi),
        fi.layout == LAYOUT_PLAIN,
        fi.size == data.len(),
        data.len() <= MAX_FILE_BUFFER,
        data.len() <= usize::MAX,
        data.len() > 0 ==> holds(e, fi.raw_blkaddr * sb.block_size, data),
        e.len() <= u64::MAX,
    ensures
        content_of(sb, e, nid) == Ok::<Seq<u8>, Fault>(data),
{
    if data.len() == 0 {
        assert(data =~= Seq::empty());
    }
}

/// A fresh inode reads back.
pub proof fn fresh_inodes_read_back(
    sb: Superblock,
    e: Seq<u8>,
    nid: u64,
    n: NodeView,
    size: u32,
    raw: u32,
    area: Seq<u8>,
)
    requires
        holds(
            e,
            inode_offset(sb, nid),
            inode_body(NodeView { nid, ..n }, 0, area_count(area), size, raw) + area,
        ),
        inode_offset(sb, nid) + 64 <= e.len() <= u64::MAX,
        inode_offset(sb, nid) + 0x10_0000 <= u64::MAX,
    ensures
        inode_of(sb, e, nid) matches Ok(fi) && {
            &&& fi.nid == nid
            &&& fi.mode == n.mode
            &&& fi.uid == n.uid
            &&& fi.gid == n.gid
            &&& fi.size == size
            &&& fi.layout == LAYOUT_PLAIN
            &&& fi.raw_blkaddr == raw
            &&& fi.inode_size == n.body()
            &&& fi.xattr_size == xattr_area(area_count(area) as int)
        },
{
    let at = inode_offset(sb, nid);
    assert(0 <= at);
    let m = NodeView { nid, ..n };
    let c = inode_body(m, 0, area_count(area), size, raw);
    let body = n.body();
    bodies_read_back(m, 0, area_count(area), size, raw);
    let y = e.subrange(at, at + 64);
    assert(c =~= y.subrange(0, body)) by {
        assert(e.subrange(at, at + (c + area).len()) =~= c + area);
        assert forall|i: int| 0 <= i < body implies y[i] == #[trigger] c[i] by {
            assert(e.subrange(at, at + (c + area).len())[i] == (c + area)[i]);
        }
    }
    le_in_window(y, 0, c, 0);
    le_in_window(y, 0, c, 2);
    le_in_window(y, 0, c, 4);
    le_in_window(y, 0, c, 8);
    le_in_window(y, 0, c, 16);
    le_in_window(y, 0, c, 24);
    le_in_window(y, 0, c, 26);
    le_in_window(y, 0, c, 28);
    assert(inode_of(sb, e, nid) == Ok::<Inode, Fault>(inode_fields(nid, at, y, zeros(8))));
}

// ---------------------------------------------------------------------
// Metadata alone
// ---------------------------------------------------------------------
/// No patch of a plan but those from `k` on, three in all, covers a byte of
/// an inode: neither of its body nor of its map header.
pub open spec fn alone(patches: Seq<PatchView>, k: int, at: int, fi: Inode) -> bool {
    forall|j: int, p: int|
        0 <= j < patches.len() && !(k <= j < k + 3) && #[trigger] patches[j].covers(p) ==> !(at
            <= p < at + fi.inode_size) && !(fi.layout == LAYOUT_COMPRESSED_COMPACT
            && fi.data_offset <= p < fi.data_offset + 8)
}

/// The bytes of an inode whose mode and owner were patched.
proof fn patched_owner_bytes(
    sb: Superblock,
    d: Seq<u8>,
    patches: Seq<PatchView>,
    size: int,
    k: int,
    n: NodeView,
    at: int,
    f: u16,
    fi: Inode,
)
    requires
        0 <= at,
        at + 64 <= d.len() <= size,
        f == le16(d.subrange(at, at + 64), 0),
        fi.inode_size == if f % 2 == 1 {
            64u64
        } else {
            32u64
        },
        0 <= k,
        k + 3 <= patches.len(),
        owner_patches(at, f, n) == patches.subrange(k, k + 3),
        alone(patches, k, at, fi),
    ensures
        ({
            let x = d.subrange(at, at + 64);
            let y = patched(d, patches, size).subrange(at, at + 64);
            &&& le16(y, 0) == f
            &&& le16(y, 2) == le16(x, 2)
            &&& le16(y, 4) == n.mode
            &&& le32(y, 16) == le32(x, 16)
            &&& f % 2 == 1 ==> le64(y, 8) == le64(x, 8) && le32(y, 24) == n.uid && le32(y, 28)
                == n.gid
            &&& f % 2 != 1 ==> le32(y, 8) == le32(x, 8) && le16(y, 24) == n.uid as u16 && le16(
                y,
                26,
            ) == n.gid as u16
        }),
{
    let e = patched(d, patches, size);
    let w = owner_patches(at, f, n);
    assert(w[0] == patches[k] && w[1] == patches[k + 1] && w[2] == patches[k + 2]) by {
        assert(patches.subrange(k, k + 3)[0] == patches[k]);
        assert(patches.subrange(k, k + 3)[1] == patches[k + 1]);
        assert(patches.subrange(k, k + 3)[2] == patches[k + 2]);
    }
    assert forall|p: int| at <= p < at + fi.inode_size && !w[0].covers(p) && !w[1].covers(p)
        && !w[2].covers(p) implies #[trigger] e[p] == d[p] by {
        unpatched(d, patches, size, k, at, fi, p);
    }
    assert forall|j: int, p: int| 0 <= j < 3 && #[trigger] w[j].covers(p) implies e[p]
        == w[j].data[p - w[j].at] by {
        own_patch(d, patches, size, k, at, fi, w, j, p);
    }
    owner_fields(at, f, n, d, e);
}

/// The map header of an inode stays when nothing but the inode is patched.
proof fn headers_stay(
    d: Seq<u8>,
    patches: Seq<PatchView>,
    size: int,
    k: int,
    n: NodeView,
    at: int,
    f: u16,
    fi: Inode,
)
    requires
        d.len() <= size,
        0 <= k,
        k + 3 <= patches.len(),
        owner_patches(at, f, n) == patches.subrange(k, k + 3),
        alone(patches, k, at, fi),
        fi.layout == LAYOUT_COMPRESSED_COMPACT,
        at + 32 <= fi.data_offset,
        fi.data_offset + 8 <= d.len(),
    ensures
        patched(d, patches, size).subrange(fi.data_offset as int, fi.data_offset + 8)
            == d.subrange(fi.data_offset as int, fi.data_offset + 8),
{
    let e = patched(d, patches, size);
    let w = owner_patches(at, f, n);
    assert forall|p: int| fi.data_offset <= p < fi.data_offset + 8 implies #[trigger] e[p]
        == d[p] by {
        assert forall|j: int| 0 <= j < patches.len() implies !(#[trigger] patches[j]).covers(p) by {
            if k <= j < k + 3 {
                assert(patches[j] == patches.subrange(k, k + 3)[j - k]);
                assert(patches[j] == w[j - k]);
            }
        }
        untouched_bytes_stay(d, patches, p);
    }
    assert(e.subrange(fi.data_offset as int, fi.data_offset + 8) =~= d.subrange(
        fi.data_offset as int,
        fi.data_offset + 8,
    ));
}

/// An inode whose mode and owner were patched reads back with them, and with
/// everything else that it had.
pub proof fn patched_owners_read_back(
    sb: Superblock,
    d: Seq<u8>,
    patches: Seq<PatchView>,
    size: int,
    k: int,
    n: NodeView,
)
    requires
        inode_of(sb, d, n.nid) is Ok,
        node_patches(sb, d, n) is Ok,
        0 <= k,
        k + 3 <= patches.len(),
        node_patches(sb, d, n)->Ok_0 == patches.subrange(k, k + 3),
        alone(patches, k, inode_offset(sb, n.nid), inode_of(sb, d, n.nid)->Ok_0),
        d.len() <= size,
    ensures
        ({
            let before = inode_of(sb, d, n.nid)->Ok_0;
            inode_of(sb, patched(d, patches, size), n.nid) == Ok::<Inode, Fault>(
                Inode {
                    mode: n.mode,
                    uid: n.uid,
                    gid: n.gid,
                    ..before
                },
            )
        }),
{
    let at = inode_offset(sb, n.nid);
    let fi = inode_of(sb, d, n.nid)->Ok_0;
    let e = patched(d, patches, size);
    inode_bytes_are_there(sb, d, n.nid);
    let x = d.subrange(at, at + 64);
    let y = e.subrange(at, at + 64);
    let f = le16(x, 0);
    assert(f == le16(d.subrange(at, at + 2), 0)) by {
        assert(x.subrange(0, 2) =~= d.subrange(at, at + 2));
        le_in_window(x, 0, d.subrange(at, at + 2), 0);
    }
    patched_owner_bytes(sb, d, patches, size, k, n, at, f, fi);
    assert(data_start(at, y) == data_start(at, x));
    if f / 2 % 8 == LAYOUT_COMPRESSED_COMPACT {
        assert(fi.data_offset + 8 <= d.len());
        assert(at + 32 <= data_start(at, x));
        headers_stay(d, patches, size, k, n, at, f, fi);
    }
}

proof fn unpatched(
    d: Seq<u8>,
    patches: Seq<PatchView>,
    size: int,
    k: int,
    at: int,
    fi: Inode,
    p: int,
)
    requires
        0 <= k,
        k + 3 <= patches.len(),
        alone(patches, k, at, fi),
        0 <= at <= p < at + fi.inode_size,
        p < d.len() <= size,
        !patches[k].covers(p),
        !patches[k + 1].covers(p),
        !patches[k + 2].covers(p),
    ensures
        patched(d, patches, size)[p] == d[p],
{
    assert forall|j: int| 0 <= j < patches.len() implies !(#[trigger] patches[j]).covers(p) by {
        if k <= j < k + 3 {
            assert(j == k || j == k + 1 || j == k + 2);
        }
    }
    untouched_bytes_stay(d, patches, p);
}

proof fn own_patch(
    d: Seq<u8>,
    patches: Seq<PatchView>,
    size: int,
    k: int,
    at: int,
    fi: Inode,
    w: Seq<PatchView>,
    j: int,
    p: int,
)
    requires
        0 <= k,
        k + 3 <= patches.len(),
        alone(patches, k, at, fi),
        fi.inode_size >= 32,
        w.len() == 3,
        w[0] == patches[k],
        w[1] == patches[k + 1],
        w[2] == patches[k + 2],
        forall|a: int, q: int|
            0 <= a < 3 && #[trigger] w[a].covers(q) ==> at <= q < at + 32,
        forall|a: int, b: int, q: int|
            0 <= a < b < 3 ==> !(#[trigger] w[a].covers(q) && #[trigger] w[b].covers(q)),
        0 <= j < 3,
        w[j].covers(p),
        0 <= p < size,
    ensures
        patched(d, patches, size)[p] == w[j].data[p - w[j].at],
{
    assert(patches[k + j] == w[j]);
    assert forall|i: int| k + j < i < patches.len() implies !(#[trigger] patches[i]).covers(p) by {
        if i < k + 3 {
            assert(patches[i] == w[i - k]);
            assert(!(w[j].covers(p) && w[i - k].covers(p)));
        }
    }
    patches_arrive(d, patches, k + j, p);
}

/// The fields of an inode after its mode and owner were patched.
proof fn owner_fields(at: int, f: u16, n: NodeView, d: Seq<u8>, e: Seq<u8>)
    requires
        0 <= at,
        at + 64 <= d.len() <= e.len(),
        f == le16(d.subrange(at, at + 64), 0),
        ({
            let w = owner_patches(at, f, n);
            let end = at + if f % 2 == 1 {
                64int
            } else {
                32
            };
            &&& forall|p: int|
                at <= p < end && !w[0].covers(p) && !w[1].covers(p) && !w[2].covers(p)
                    ==> #[trigger] e[p] == d[p]
            &&& forall|j: int, p: int|
                0 <= j < 3 && #[trigger] w[j].covers(p) ==> e[p] == w[j].data[p - w[j].at]
        }),
    ensures
        ({
            let x = d.subrange(at, at + 64);
            let y = e.subrange(at, at + 64);
            &&& le16(y, 0) == f
            &&& le16(y, 2) == le16(x, 2)
            &&& le16(y, 4) == n.mode
            &&& le32(y, 16) == le32(x, 16)
            &&& f % 2 == 1 ==> le64(y, 8) == le64(x, 8) && le32(y, 24) == n.uid && le32(y, 28)
                == n.gid
            &&& f % 2 != 1 ==> le32(y, 8) == le32(x, 8) && le16(y, 24) == n.uid as u16 && le16(
                y,
                26,
            ) == n.gid as u16
        }),
{
    let x = d.subrange(at, at + 64);
    let y = e.subrange(at, at + 64);
    let w = owner_patches(at, f, n);
    assert forall|i: int| (0 <= i < 4 || 6 <= i < 24) implies #[trigger] y[i] == x[i] by {
        let p = at + i;
        assert(!w[0].covers(p) && !w[1].covers(p) && !w[2].covers(p));
        assert(e[p] == d[p]);
    }
    assert forall|j: int, i: int| 0 <= j < 3 && 0 <= i < w[j].data.len() implies e[w[j].at + i]
        == #[trigger] w[j].data[i] by {
        let p = w[j].at + i;
        assert(w[j].covers(p));
        assert(e[p] == w[j].data[p - w[j].at]);
    }
    assert(y.subrange(4, 6) =~= bytes16(n.mode)) by {
        assert(w[0].data[0] == e[at + 4] && w[0].data[1] == e[at + 5]);
    }
    field16(y, 4, n.mode);
    if f % 2 == 1 {
        assert(y.subrange(24, 28) =~= bytes32(n.uid)) by {
            assert forall|i: int| 0 <= i < 4 implies y[24 + i] == #[trigger] w[1].data[i] by {
                assert(e[w[1].at + i] == w[1].data[i]);
            }
        }
        field32(y, 24, n.uid);
        assert(y.subrange(28, 32) =~= bytes32(n.gid)) by {
            assert forall|i: int| 0 <= i < 4 implies y[28 + i] == #[trigger] w[2].data[i] by {
                assert(e[w[2].at + i] == w[2].data[i]);
            }
        }
        field32(y, 28, n.gid);
    } else {
        assert(y.subrange(24, 26) =~= bytes16(n.uid as u16)) by {
            assert(e[w[1].at + 0] == w[1].data[0] && e[w[1].at + 1] == w[1].data[1]);
        }
        field16(y, 24, n.uid as u16);
        assert(y.subrange(26, 28) =~= bytes16(n.gid as u16)) by {
            assert(e[w[2].at + 0] == w[2].data[0] && e[w[2].at + 1] == w[2].data[1]);
        }
        field16(y, 26, n.gid as u16);
    }
}

} // verus!
