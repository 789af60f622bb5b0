//! What reading an EROFS image gives back of what was written.
use super::fresh_laws::holds;
use super::node::NodeView;
use super::overlay::{compact_inode, extended_inode, inode_body};
use crate::buf::{
    bytes16, bytes32, bytes64, le16, le16_of_bytes16, le32, le32_of_bytes32, le64, le64_of_bytes64,
    le_in_window,
};
use crate::error::Fault;
use crate::fs::erofs::xattr::{
    area_entries, area_of, entries_from, entry_at, entry_bytes, first_label, padded4, shared_from,
    shared_of, table_of, words, XattrView, INDEX_SECURITY,
};
use crate::fs::erofs::Superblock;
use crate::fs::ext4::selinux::selinux_name;
use crate::math::{align_up, ceil_div_covers};
use crate::text::{padded_text, trim_both};
use vstd::prelude::*;
use vstd::utf8::encode_utf8;

verus! {

// ---------------------------------------------------------------------
// Inodes
// ---------------------------------------------------------------------
/// Reading the fields of a compact inode gives back what was written.
pub proof fn inodes_read_back(
    format: u16,
    icount: u16,
    mode: u16,
    size: u32,
    raw: u32,
    nid: u32,
    uid: u16,
    gid: u16,
)
    ensures
        ({
            let c = compact_inode(format, icount, mode, size, raw, nid, uid, gid);
            &&& c.len() == 32
            &&& le16(c, 0) == format
            &&& le16(c, 2) == icount
            &&& le16(c, 4) == mode
            &&& le32(c, 8) == size
            &&& le32(c, 16) == raw
            &&& le16(c, 24) == uid
            &&& le16(c, 26) == gid
        }),
{
    let c = compact_inode(format, icount, mode, size, raw, nid, uid, gid);
    field16(c, 0, format);
    field16(c, 2, icount);
    field16(c, 4, mode);
    field32(c, 8, size);
    field32(c, 16, raw);
    field16(c, 24, uid);
    field16(c, 26, gid);
}

/// Reading the fields of an extended inode gives back what was written.
pub proof fn extended_inodes_read_back(
    format: u16,
    icount: u16,
    mode: u16,
    size: u32,
    raw: u32,
    nid: u32,
    uid: u32,
    gid: u32,
)
    ensures
        ({
            let c = extended_inode(format, icount, mode, size, raw, nid, uid, gid);
            &&& c.len() == 64
            &&& le16(c, 0) == format
            &&& le16(c, 2) == icount
            &&& le16(c, 4) == mode
            &&& le64(c, 8) == size
            &&& le32(c, 16) == raw
            &&& le32(c, 24) == uid
            &&& le32(c, 28) == gid
        }),
{
    let c = extended_inode(format, icount, mode, size, raw, nid, uid, gid);
    field16(c, 0, format);
    field16(c, 2, icount);
    field16(c, 4, mode);
    field64(c, 8, size as u64);
    field32(c, 16, raw);
    field32(c, 24, uid);
    field32(c, 28, gid);
}

/// Reading the fields of a fresh inode gives back what was written, with the
/// whole owner.
pub proof fn bodies_read_back(n: NodeView, layout: u16, icount: u16, size: u32, raw: u32)
    requires
        layout < 8,
    ensures
        ({
            let c = inode_body(n, layout, icount, size, raw);
            &&& c.len() == n.body()
            &&& le16(c, 0) == 2 * layout + if n.widely_owned() {
                1int
            } else {
                0
            }
            &&& le16(c, 2) == icount
            &&& le16(c, 4) == n.mode
            &&& n.widely_owned() ==> le64(c, 8) == size && le32(c, 24) == n.uid && le32(c, 28)
                == n.gid
            &&& !n.widely_owned() ==> le32(c, 8) == size && le16(c, 24) == n.uid && le16(c, 26)
                == n.gid
            &&& le32(c, 16) == raw
        }),
{
    reveal(inode_body);
    if n.widely_owned() {
        extended_inodes_read_back(
            (2 * layout + 1) as u16,
            icount,
            n.mode,
            size,
            raw,
            n.nid as u32,
            n.uid,
            n.gid,
        );
    } else {
        inodes_read_back(
            (2 * layout) as u16,
            icount,
            n.mode,
            size,
            raw,
            n.nid as u32,
            n.uid as u16,
            n.gid as u16,
        );
    }
}

/// The number whose two bytes stand at a place.
pub proof fn field16(c: Seq<u8>, at: int, v: u16)
    requires
        0 <= at,
        at + 2 <= c.len(),
        c.subrange(at, at + 2) =~= bytes16(v),
    ensures
        le16(c, at) == v,
{
    le16_of_bytes16(v);
    le_in_window(c, at, bytes16(v), 0);
}

/// The number whose four bytes stand at a place.
pub proof fn field32(c: Seq<u8>, at: int, v: u32)
    requires
        0 <= at,
        at + 4 <= c.len(),
        c.subrange(at, at + 4) =~= bytes32(v),
    ensures
        le32(c, at) == v,
{
    le32_of_bytes32(v);
    le_in_window(c, at, bytes32(v), 0);
}

/// The number whose eight bytes stand at a place.
pub proof fn field64(c: Seq<u8>, at: int, v: u64)
    requires
        0 <= at,
        at + 8 <= c.len(),
        c.subrange(at, at + 8) =~= bytes64(v),
    ensures
        le64(c, at) == v,
{
    le64_of_bytes64(v);
    le_in_window(c, at, bytes64(v), 0);
}

// ---------------------------------------------------------------------
// SELinux contexts
// ---------------------------------------------------------------------
/// The entry of a context.
pub open spec fn context_entry(c: Seq<char>) -> XattrView {
    XattrView { index: INDEX_SECURITY, name: selinux_name(), value: encode_utf8(c) }
}

proof fn aligned_step(a: int, b: int)
    requires
        0 <= a,
        0 <= b,
        a % 4 == 0,
    ensures
        align_up(a + b, 4) == a + align_up(b, 4),
{
    ceil_div_covers(a + b, 4);
    ceil_div_covers(b, 4);
}

proof fn table_step(contexts: Seq<Seq<char>>, n: int)
    requires
        0 <= n < contexts.len(),
    ensures
        table_of(contexts, n).len() % 4 == 0,
        table_of(contexts, n + 1).len() % 4 == 0,
        table_of(contexts, n + 1) == table_of(contexts, n) + padded4(
            entry_bytes(INDEX_SECURITY, selinux_name(), encode_utf8(contexts[n])),
        ),
    decreases n,
{
    if n > 0 {
        table_step(contexts, n - 1);
    }
    let e = entry_bytes(INDEX_SECURITY, selinux_name(), encode_utf8(contexts[n]));
    let t = table_of(contexts, n);
    aligned_step(t.len() as int, e.len() as int);
    ceil_div_covers(e.len() as int, 4);
    ceil_div_covers((t.len() + e.len()) as int, 4);
    assert(padded4(t + e) =~= t + padded4(e));
}

/// The table of some of the contexts is the front of the table of all.
pub proof fn tables_grow(contexts: Seq<Seq<char>>, i: int, n: int)
    requires
        0 <= i <= n <= contexts.len(),
    ensures
        table_of(contexts, i).len() % 4 == 0,
        table_of(contexts, i).len() <= table_of(contexts, n).len(),
        table_of(contexts, n).take(table_of(contexts, i).len() as int) == table_of(contexts, i),
    decreases n,
{
    if i == n {
        if n > 0 {
            table_step(contexts, n - 1);
        }
        let t = table_of(contexts, n);
        assert(t.take(t.len() as int) =~= t);
    } else {
        tables_grow(contexts, i, n - 1);
        table_step(contexts, n - 1);
        let t = table_of(contexts, i);
        assert(table_of(contexts, n).take(t.len() as int) =~= table_of(contexts, n - 1).take(
            t.len() as int,
        ));
    }
}

/// The entry of a context stands where the table of those in front of it
/// ends.
pub proof fn entries_stand_in_the_table(contexts: Seq<Seq<char>>, i: int)
    requires
        0 <= i < contexts.len(),
    ensures
        holds(
            table_of(contexts, contexts.len() as int),
            table_of(contexts, i).len() as int,
            padded4(entry_bytes(INDEX_SECURITY, selinux_name(), encode_utf8(contexts[i]))),
        ),
        table_of(contexts, i).len() % 4 == 0,
{
    let whole = table_of(contexts, contexts.len() as int);
    let t = table_of(contexts, i);
    let e = padded4(entry_bytes(INDEX_SECURITY, selinux_name(), encode_utf8(contexts[i])));
    table_step(contexts, i);
    tables_grow(contexts, i + 1, contexts.len() as int);
    let next = table_of(contexts, i + 1);
    assert(next == t + e);
    assert forall|k: int| 0 <= k < e.len() implies whole[t.len() + k] == e[k] by {
        assert(whole.take(next.len() as int)[t.len() + k] == next[t.len() + k]);
    }
    assert(whole.subrange(t.len() as int, (t.len() + e.len()) as int) =~= e);
}

/// An entry reads back.
pub proof fn entries_read_back(index: u8, name: Seq<u8>, value: Seq<u8>)
    requires
        name.len() <= 0xff,
        value.len() <= 0xffff,
    ensures
        ({
            let e = padded4(entry_bytes(index, name, value));
            &&& e.len() == align_up((4 + name.len() + value.len()) as int, 4)
            &&& e[0] == name.len()
            &&& e[1] == index
            &&& le16(e, 2) == value.len()
            &&& entry_at(e, 0) == Ok::<(XattrView, int), Fault>(
                (XattrView { index, name, value }, e.len() as int),
            )
        }),
{
    let e = padded4(entry_bytes(index, name, value));
    let n = (4 + name.len() + value.len()) as int;
    ceil_div_covers(n, 4);
    field16(e, 2, value.len() as u16);
    assert(e.subrange(4, 4int + name.len()) =~= name);
    assert(e.subrange(4int + name.len(), n) =~= value);
}

/// An entry that is encoded behind others reads back, and leaves those in
/// front of it as they are.
pub proof fn entries_read_back_behind(front: Seq<u8>, index: u8, name: Seq<u8>, value: Seq<u8>)
    requires
        front.len() % 4 == 0,
        name.len() <= 0xff,
        value.len() <= 0xffff,
    ensures
        ({
            let out = padded4(front + entry_bytes(index, name, value));
            &&& entry_at(out, front.len() as int) == Ok::<(XattrView, int), Fault>(
                (XattrView { index, name, value }, out.len() as int),
            )
            &&& out.take(front.len() as int) == front
        }),
{
    let e = entry_bytes(index, name, value);
    let out = padded4(front + e);
    let at = front.len() as int;
    let n = (4 + name.len() + value.len()) as int;
    aligned_step(at, e.len() as int);
    ceil_div_covers(n, 4);
    ceil_div_covers(at + n, 4);
    assert(out.take(at) =~= front);
    assert(out.subrange(at + 2, at + 4) =~= bytes16(value.len() as u16));
    field16(out, at + 2, value.len() as u16);
    assert(out[at] == name.len() as u8);
    assert(out[at + 1] == index);
    assert(out.subrange(at + 4, at + 4 + name.len()) =~= name);
    assert(out.subrange(at + 4 + name.len(), at + n) =~= value);
}

/// What stands in a part of an image stands in the image.
pub proof fn parts_of_parts(d: Seq<u8>, base: int, whole: Seq<u8>, t: int, e: Seq<u8>)
    requires
        0 <= base,
        0 <= t,
        holds(d, base, whole),
        holds(whole, t, e),
    ensures
        holds(d, base + t, e),
{
    assert(d.subrange(base + t, base + t + e.len()) =~= d.subrange(base, base + whole.len()).subrange(
        t,
        t + e.len(),
    ));
}

proof fn entry_is_shared(fs: Superblock, d: Seq<u8>, id: u32, e: Seq<u8>, entry: XattrView)
    requires
        holds(d, fs.xattr_blkaddr * fs.block_size + id * 4, e),
        0 <= fs.xattr_blkaddr * fs.block_size,
        fs.xattr_blkaddr * fs.block_size + id * 4 + e.len() <= u64::MAX,
        4 <= e.len(),
        e[0] != 0,
        e[1] != 0,
        e.len() == align_up(4 + e[0] + le16(e, 2), 4),
        entry_at(e, 0) == Ok::<(XattrView, int), Fault>((entry, e.len() as int)),
    ensures
        shared_of(fs, d, id) == Ok::<XattrView, Fault>(entry),
{
    let at = fs.xattr_blkaddr * fs.block_size + id * 4;
    let head = e.subrange(0, 4);
    assert(d.subrange(at, at + 4) =~= d.subrange(at, at + e.len()).subrange(0, 4));
    le_in_window(e, 0, head, 2);
}

/// A context reads back through its number, where the table stands in the
/// image.
pub proof fn shared_contexts_read_back(
    fs: Superblock,
    d: Seq<u8>,
    contexts: Seq<Seq<char>>,
    i: int,
)
    requires
        0 <= i < contexts.len(),
        holds(
            d,
            fs.xattr_blkaddr * fs.block_size,
            table_of(contexts, contexts.len() as int),
        ),
        fs.xattr_blkaddr * fs.block_size + table_of(contexts, contexts.len() as int).len()
            <= u64::MAX,
        table_of(contexts, contexts.len() as int).len() <= 4 * u32::MAX,
        encode_utf8(contexts[i]).len() <= 0xffff,
    ensures
        shared_of(fs, d, (table_of(contexts, i).len() / 4) as u32) == Ok::<XattrView, Fault>(
            context_entry(contexts[i]),
        ),
{
    let whole = table_of(contexts, contexts.len() as int);
    let t = table_of(contexts, i);
    let value = encode_utf8(contexts[i]);
    let e = padded4(entry_bytes(INDEX_SECURITY, selinux_name(), value));
    let base = fs.xattr_blkaddr * fs.block_size;
    entries_stand_in_the_table(contexts, i);
    entries_read_back(INDEX_SECURITY, selinux_name(), value);
    ceil_div_covers((4 + 7 + value.len()) as int, 4);
    assert(0 <= base) by (nonlinear_arith)
        requires
            base == fs.xattr_blkaddr * fs.block_size,
    ;
    assert(((t.len() / 4) as u32) * 4 == t.len());
    parts_of_parts(d, base, whole, t.len() as int, e);
    entry_is_shared(fs, d, (t.len() / 4) as u32, e, context_entry(contexts[i]));
}

/// An area with the number of one context reads back as its label.
pub proof fn areas_read_back(fs: Superblock, d: Seq<u8>, id: u32, c: Seq<char>)
    requires
        shared_of(fs, d, id) == Ok::<XattrView, Fault>(context_entry(c)),
    ensures
        area_of(seq![id]).len() == 16,
        area_entries(fs, d, area_of(seq![id])) == Ok::<Seq<XattrView>, Fault>(
            seq![context_entry(c)],
        ),
        first_label(seq![context_entry(c)]) == Some(trim_both(c)),
{
    let ids = seq![id];
    let area = area_of(ids);
    assert(ids.drop_last() =~= Seq::empty());
    assert(words(ids.drop_last()) =~= Seq::empty());
    assert(words(ids) =~= bytes32(id));
    assert(area =~= bytes32(0) + bytes32(1) + bytes32(0) + bytes32(id));
    field32(area, 4, 1);
    field32(area, 12, id);
    assert(shared_from(fs, d, area, 1, 1) == Ok::<Seq<XattrView>, Fault>(Seq::empty()));
    assert(shared_from(fs, d, area, 0, 1) == Ok::<Seq<XattrView>, Fault>(
        seq![context_entry(c)] + Seq::empty(),
    ));
    assert(entries_from(area, 16) == Ok::<Seq<XattrView>, Fault>(Seq::empty()));
    assert(seq![context_entry(c)] + Seq::<XattrView>::empty() + Seq::<XattrView>::empty() =~= seq![
        context_entry(c),
    ]);
    padded_text(c, 0);
}

} // verus!
