//! EROFS extended attributes.
//!
//! - Without a count there is no attribute area, nothing follows the inode.
//! - Otherwise the inline area is `8 + count * 4` bytes right after the inode
//!   body: an opaque word, the number of shared entries, a reserved word,
//!   the numbers of the shared entries, then inline entries that tile
//!   exactly to the area end.
//! - An entry is `{u8 name_len, u8 name_index, u16 value_size}`, name and
//!   value, padded to four bytes.
//! - Shared entry `k` stands at `xattr_blkaddr * block_size + k * 4`.
use super::inode::{inode_offset, locate, Inode};
use super::Superblock;
use crate::buf::{
    bytes16, bytes32, get16, get32, le16, le32, push16, push32, push_bytes, zeros,
};
use crate::error::{fail, told, Error, Fault};
use crate::fs::ext4::selinux::{is_selinux_name, selinux_name};
use crate::image::{disk_read, ByteSource, Image};
use crate::math::align_up;
use crate::text::{
    from_utf8_lossy, text_of, opt_text, texts, trim_both, trim_nul,
};
use vstd::arithmetic::power2::pow2;
use vstd::prelude::*;
use vstd::utf8::encode_utf8;

verus! {

/// Name index of `security.*` attributes.
pub const INDEX_SECURITY: u8 = 6;

/// Hard cap for an inline attribute area.
pub const MAX_AREA: u64 = 1048576;

/// An extended attribute.
#[derive(Debug, Clone)]
pub struct Xattr {
    pub index: u8,
    pub name: Vec<u8>,
    pub value: Vec<u8>,
}

/// The mathematical counterpart of [`Xattr`].
#[verifier::ext_equal]
pub struct XattrView {
    pub index: u8,
    pub name: Seq<u8>,
    pub value: Seq<u8>,
}

impl View for Xattr {
    type V = XattrView;

    open spec fn view(&self) -> XattrView {
        XattrView { index: self.index, name: self.name@, value: self.value@ }
    }
}

/// The views of a sequence of attributes.
pub open spec fn xattr_views(s: Seq<Xattr>) -> Seq<XattrView> {
    s.map_values(|x: Xattr| x@)
}

impl XattrView {
    /// Whether this is the `security.selinux` attribute.
    pub open spec fn labels(self) -> bool {
        self.index == INDEX_SECURITY && self.name == selinux_name()
    }

    /// The label that the value spells.
    pub open spec fn label(self) -> Seq<char> {
        trim_both(text_of(self.value))
    }
}

impl Xattr {
    /// Whether the attribute is a SELinux label.
    pub fn is_selinux(&self) -> (b: bool)
        ensures
            b == self@.labels(),
    {
        self.index == INDEX_SECURITY && is_selinux_name(&self.name)
    }

    /// The value as a label.
    pub fn selinux_value(&self) -> (s: String)
        ensures
            s@ == self@.label(),
    {
        let text = from_utf8_lossy(&self.value);
        trim_nul(text.as_str())
    }
}

/// What the inline area size for a count comes to.
pub open spec fn sized_area(count: int) -> Result<u64, Fault> {
    if count == 0 {
        Ok(0u64)
    } else if 8 + 4 * count > u64::MAX {
        fail("EROFS xattr size overflow"@)
    } else if 8 + 4 * count > MAX_AREA {
        fail("EROFS xattr area is too large"@)
    } else {
        Ok((8 + 4 * count) as u64)
    }
}

/// Inline area size for a given count (0 when the count is 0).
pub fn area_size(icount: u64) -> (r: Result<u64, Error>)
    ensures
        match r {
            Ok(n) => sized_area(icount as int) == Ok::<u64, Fault>(n),
            Err(e) => sized_area(icount as int) == Err::<u64, Fault>(e@),
        },
{
    if icount == 0 {
        return Ok(0);
    }
    let size = 8 + 4 * (icount as u128);
    if size > u64::MAX as u128 {
        return Err(Error::invalid("EROFS xattr size overflow"));
    }
    if size > MAX_AREA as u128 {
        return Err(Error::invalid("EROFS xattr area is too large"));
    }
    Ok(size as u64)
}

// ---------------------------------------------------------------------
// Entries
// ---------------------------------------------------------------------
/// The entry at `offset`, and where the next one starts.
pub open spec fn entry_at(x: Seq<u8>, offset: int) -> Result<(XattrView, int), Fault> {
    let name_len = x[offset];
    let value_size = le16(x, offset + 2);
    let value = offset + 4 + name_len;
    let end = value + value_size;
    if offset + 4 > x.len() || end > x.len() || align_up(end, 4) > x.len() {
        fail("truncated EROFS xattr entry"@)
    } else {
        Ok(
            (
                XattrView {
                    index: x[offset + 1],
                    name: x.subrange(offset + 4, value),
                    value: x.subrange(value, end),
                },
                align_up(end, 4),
            ),
        )
    }
}

/// The entries from `offset` to the end of the area.
pub open spec fn entries_from(x: Seq<u8>, offset: int) -> Result<Seq<XattrView>, Fault>
    decreases x.len() - offset,
{
    if offset < 0 || offset >= x.len() {
        Ok(Seq::empty())
    } else {
        match entry_at(x, offset) {
            Err(e) => Err(e),
            Ok((entry, next)) => {
                proof {
                    crate::math::ceil_div_covers(
                        offset + 4 + x[offset] + le16(x, offset + 2),
                        4,
                    );
                }
                match entries_from(x, next) {
                    Err(e) => Err(e),
                    Ok(rest) => Ok(seq![entry] + rest),
                }
            },
        }
    }
}

/// Parse the entry at `offset`; gives the entry and the offset just past its
/// padding.
pub fn parse_entry(data: &[u8], offset: usize) -> (r: Result<(Xattr, usize), Error>)
    ensures
        match r {
            Ok((entry, next)) => entry_at(data@, offset as int) == Ok::<(XattrView, int), Fault>(
                (entry@, next as int),
            ) && offset < next <= data@.len(),
            Err(e) => entry_at(data@, offset as int) == Err::<(XattrView, int), Fault>(e@),
        },
{
    if data.len() < 4 || offset > data.len() - 4 {
        return Err(Error::invalid("truncated EROFS xattr entry"));
    }
    let name_len = data[offset] as usize;
    let index = data[offset + 1];
    let value_size = get16(data, offset + 2) as usize;
    let rest = data.len() - offset - 4;
    proof {
        crate::math::ceil_div_covers(offset + 4 + name_len + value_size, 4);
    }
    if name_len + value_size > rest {
        return Err(Error::invalid("truncated EROFS xattr entry"));
    }
    let value = offset + 4 + name_len;
    let end = value + value_size;
    let over = end % 4;
    let pad: usize = if over == 0 {
        0
    } else {
        4 - over
    };
    if pad > data.len() - end {
        return Err(Error::invalid("truncated EROFS xattr entry"));
    }
    let entry = Xattr {
        index,
        name: crate::buf::copy_range(data, offset + 4, value),
        value: crate::buf::copy_range(data, value, end),
    };
    Ok((entry, end + pad))
}

/// A shared entry.
pub open spec fn shared_of(fs: Superblock, d: Seq<u8>, id: u32) -> Result<XattrView, Fault> {
    let at = fs.xattr_blkaddr * fs.block_size + id * 4;
    match disk_read(d, at, 4) {
        Err(e) => Err(e),
        Ok(head) => if head[0] == 0 || head[1] == 0 {
            fail("invalid EROFS shared xattr entry"@)
        } else {
            match disk_read(d, at, align_up(4 + head[0] + le16(head, 2), 4)) {
                Err(e) => Err(e),
                Ok(raw) => match entry_at(raw, 0) {
                    Err(e) => Err(e),
                    Ok((entry, used)) => if used != raw.len() {
                        fail("invalid EROFS shared xattr entry"@)
                    } else {
                        Ok(entry)
                    },
                },
            }
        },
    }
}

/// The shared entries whose numbers stand in the area from index `i` on.
pub open spec fn shared_from(fs: Superblock, d: Seq<u8>, area: Seq<u8>, i: int, count: int) -> Result<
    Seq<XattrView>,
    Fault,
>
    decreases count - i,
{
    if i >= count {
        Ok(Seq::empty())
    } else {
        match shared_of(fs, d, le32(area, 12 + i * 4)) {
            Err(e) => Err(e),
            Ok(entry) => match shared_from(fs, d, area, i + 1, count) {
                Err(e) => Err(e),
                Ok(rest) => Ok(seq![entry] + rest),
            },
        }
    }
}

/// All attributes of an attribute area: shared ones first, then inline ones.
pub open spec fn area_entries(fs: Superblock, d: Seq<u8>, area: Seq<u8>) -> Result<
    Seq<XattrView>,
    Fault,
> {
    let count = le32(area, 4) as int;
    if area.len() < 12 || 12 + 4 * count > area.len() {
        fail("truncated EROFS xattr area"@)
    } else {
        match shared_from(fs, d, area, 0, count) {
            Err(e) => Err(e),
            Ok(shared) => match entries_from(area, 12 + 4 * count) {
                Err(e) => Err(e),
                Ok(inline) => Ok(shared + inline),
            },
        }
    }
}

/// All attributes of an inode.
pub open spec fn xattrs_of(fs: Superblock, d: Seq<u8>, inode: Inode) -> Result<
    Seq<XattrView>,
    Fault,
> {
    let at = inode_offset(fs, inode.nid) + inode.inode_size;
    if inode.xattr_size == 0 {
        Ok(Seq::empty())
    } else if inode_offset(fs, inode.nid) > u64::MAX {
        fail("EROFS inode offset overflow"@)
    } else if at > u64::MAX {
        fail("EROFS xattr offset overflow"@)
    } else if inode.xattr_size > MAX_AREA {
        fail("EROFS xattr area is too large"@)
    } else {
        match disk_read(d, at, inode.xattr_size as int) {
            Err(e) => Err(e),
            Ok(area) => area_entries(fs, d, area),
        }
    }
}

/// The label of the first attribute that is one.
pub open spec fn first_label(s: Seq<XattrView>) -> Option<Seq<char>>
    decreases s.len(),
{
    if s.len() == 0 {
        None
    } else if s[0].labels() {
        Some(s[0].label())
    } else {
        first_label(s.drop_first())
    }
}

/// The label of an inode.
pub open spec fn selinux_of(fs: Superblock, d: Seq<u8>, inode: Inode) -> Result<
    Option<Seq<char>>,
    Fault,
> {
    match xattrs_of(fs, d, inode) {
        Err(e) => Err(e),
        Ok(all) => Ok(first_label(all)),
    }
}

/// Read a shared entry. It must be structurally valid.
fn read_shared<S: ByteSource>(fs: &Superblock, image: &Image<S>, id: u32) -> (r: Result<
    Xattr,
    Error,
>)
    requires
        image.wf(),
        fs.wf(),
    ensures
        told(image.faulty(), r, shared_of(*fs, image.disk(), id)),
{
    proof {
        let bits = choose|bits: nat| 9 <= bits <= 20 && fs.block_size == #[trigger] pow2(bits);
        super::block_size_bounds(bits);
    }
    assert(fs.xattr_blkaddr * fs.block_size <= 0xffff_ffff * 0x10_0000) by (nonlinear_arith)
        requires
            fs.xattr_blkaddr <= 0xffff_ffff,
            fs.block_size <= 0x10_0000,
    ;
    let at = fs.xattr_blkaddr * fs.block_size + id as u64 * 4;
    let head = image.read_at(at, 4)?;
    if head[0] == 0 || head[1] == 0 {
        return Err(Error::invalid("invalid EROFS shared xattr entry"));
    }
    let total = 4 + head[0] as usize + get16(&head, 2) as usize;
    proof {
        crate::math::ceil_div_covers(total as int, 4);
    }
    let padded = if total % 4 == 0 {
        total
    } else {
        total / 4 * 4 + 4
    };
    let raw = image.read_at(at, padded)?;
    let (entry, used) = parse_entry(&raw, 0)?;
    if used != raw.len() {
        return Err(Error::invalid("invalid EROFS shared xattr entry"));
    }
    Ok(entry)
}

/// Parses an attribute area.
fn read_area<S: ByteSource>(fs: &Superblock, image: &Image<S>, area: &[u8]) -> (r: Result<
    Vec<Xattr>,
    Error,
>)
    requires
        image.wf(),
        fs.wf(),
    ensures
        match r {
            Ok(v) => area_entries(*fs, image.disk(), area@) == Ok::<Seq<XattrView>, Fault>(
                xattr_views(v@),
            ),
            Err(e) => area_entries(*fs, image.disk(), area@) == Err::<Seq<XattrView>, Fault>(e@)
                || (image.faulty() && e is Io),
        },
{
    if area.len() < 12 {
        return Err(Error::invalid("truncated EROFS xattr area"));
    }
    let count = get32(area, 4);
    if count as u64 * 4 > (area.len() - 12) as u64 {
        return Err(Error::invalid("truncated EROFS xattr area"));
    }
    let ghost d = image.disk();
    let ghost x = area@;
    let mut out: Vec<Xattr> = Vec::new();
    let ghost shared = shared_from(*fs, d, x, 0, count as int);
    proof {
        if let Ok(rest) = shared {
            assert(xattr_views(out@) + rest =~= rest);
        }
    }
    let mut i: u32 = 0;
    while i < count
        invariant
            i <= count,
            image.wf(),
            fs.wf(),
            d == image.disk(),
            x == area@,
            12 + 4 * count <= area.len(),
            count == le32(x, 4),
            shared == shared_from(*fs, d, x, 0, count as int),
            shared == (match shared_from(*fs, d, x, i as int, count as int) {
                Err(e) => Err(e),
                Ok(rest) => Ok(xattr_views(out@) + rest),
            }),
        decreases count - i,
    {
        let ghost before = xattr_views(out@);
        let id = get32(area, 12 + i as usize * 4);
        let entry = read_shared(fs, image, id)?;
        out.push(entry);
        proof {
            assert(xattr_views(out@) =~= before.push(entry@));
            if let Ok(rest) = shared_from(*fs, d, x, i + 1, count as int) {
                assert(before + (seq![entry@] + rest) =~= xattr_views(out@) + rest);
            }
        }
        i += 1;
    }
    let ghost head = xattr_views(out@);
    assert(head + Seq::<XattrView>::empty() =~= head);
    let mut offset = 12 + count as usize * 4;
    let ghost first = offset as int;
    let ghost inline = entries_from(x, first);
    proof {
        if let Ok(rest) = inline {
            assert(Seq::<XattrView>::empty() + rest =~= rest);
        }
    }
    let ghost mut got: Seq<XattrView> = Seq::empty();
    while offset < area.len()
        invariant
            x == area@,
            offset <= area.len(),
            inline == entries_from(x, first),
            area.len() >= 12,
            first == 12 + 4 * count,
            first <= area.len(),
            count == le32(x, 4),
            shared_from(*fs, d, x, 0, count as int) == Ok::<Seq<XattrView>, Fault>(head),
            area_entries(*fs, d, x) == (match inline {
                Err(e) => Err(e),
                Ok(inline) => Ok(head + inline),
            }),
            d == image.disk(),
            xattr_views(out@) == head + got,
            inline == (match entries_from(x, offset as int) {
                Err(e) => Err(e),
                Ok(rest) => Ok(got + rest),
            }),
        decreases area.len() - offset,
    {
        let (entry, next) = parse_entry(area, offset)?;
        let ghost prior = xattr_views(out@);
        out.push(entry);
        proof {
            let before = got;
            got = before.push(entry@);
            assert(xattr_views(out@) =~= prior.push(entry@));
            assert(prior.push(entry@) =~= head + got);
            if let Ok(rest) = entries_from(x, next as int) {
                assert(before + (seq![entry@] + rest) =~= got + rest);
            }
        }
        offset = next;
    }
    assert(got + Seq::<XattrView>::empty() =~= got);
    Ok(out)
}

/// Read all attributes of an inode: shared entries first, then inline ones.
/// The inline section must tile exactly.
pub fn read_all<S: ByteSource>(fs: &Superblock, image: &Image<S>, inode: &Inode) -> (r: Result<
    Vec<Xattr>,
    Error,
>)
    requires
        image.wf(),
        fs.wf(),
    ensures
        match r {
            Ok(v) => xattrs_of(*fs, image.disk(), *inode) == Ok::<Seq<XattrView>, Fault>(
                xattr_views(v@),
            ),
            Err(e) => xattrs_of(*fs, image.disk(), *inode) == Err::<Seq<XattrView>, Fault>(e@) || (
            image.faulty() && e is Io),
        },
{
    if inode.xattr_size == 0 {
        let none: Vec<Xattr> = Vec::new();
        assert(xattr_views(none@) =~= Seq::empty());
        return Ok(none);
    }
    let base = locate(fs, inode.nid)?;
    let at = match base.checked_add(inode.inode_size) {
        Some(v) => v,
        None => {
            return Err(Error::invalid("EROFS xattr offset overflow"));
        },
    };
    if inode.xattr_size > MAX_AREA {
        return Err(Error::invalid("EROFS xattr area is too large"));
    }
    let area = image.read_at(at, inode.xattr_size as usize)?;
    read_area(fs, image, &area)
}

/// First `security.selinux` value of an inode, if any.
pub fn selinux<S: ByteSource>(fs: &Superblock, image: &Image<S>, inode: &Inode) -> (r: Result<
    Option<String>,
    Error,
>)
    requires
        image.wf(),
        fs.wf(),
    ensures
        match r {
            Ok(label) => selinux_of(*fs, image.disk(), *inode) == Ok::<Option<Seq<char>>, Fault>(
                opt_text(label),
            ),
            Err(e) => selinux_of(*fs, image.disk(), *inode) == Err::<Option<Seq<char>>, Fault>(e@)
                || (image.faulty() && e is Io),
        },
{
    let all = read_all(fs, image, inode)?;
    let ghost views = xattr_views(all@);
    let mut i: usize = 0;
    assert(views.skip(0) =~= views);
    while i < all.len()
        invariant
            i <= all.len(),
            views == xattr_views(all@),
            first_label(views) == first_label(views.skip(i as int)),
            selinux_of(*fs, image.disk(), *inode) == Ok::<Option<Seq<char>>, Fault>(
                first_label(views),
            ),
        decreases all.len() - i,
    {
        proof {
            let tail = views.skip(i as int);
            assert(tail[0] == all@[i as int]@);
            assert(tail.drop_first() =~= views.skip(i + 1));
        }
        if all[i].is_selinux() {
            return Ok(Some(all[i].selinux_value()));
        }
        i += 1;
    }
    Ok(None)
}

// ---------------------------------------------------------------------
// Encoding
// ---------------------------------------------------------------------
/// The bytes of an entry, its padding not counted.
pub open spec fn entry_bytes(index: u8, name: Seq<u8>, value: Seq<u8>) -> Seq<u8> {
    seq![name.len() as u8, index] + bytes16(value.len() as u16) + name + value
}

/// `s` padded with zero bytes to a multiple of four.
pub open spec fn padded4(s: Seq<u8>) -> Seq<u8> {
    s + zeros(align_up(s.len() as int, 4) - s.len())
}

/// Encode one entry behind `out`, padded to four bytes.
pub fn encode_entry(index: u8, name: &[u8], value: &[u8], out: &mut Vec<u8>)
    ensures
        final(out)@ == padded4(old(out)@ + entry_bytes(index, name@, value@)),
{
    out.push(name.len() as u8);
    out.push(index);
    push16(out, value.len() as u16);
    push_bytes(out, name);
    push_bytes(out, value);
    let ghost whole = old(out)@ + entry_bytes(index, name@, value@);
    assert(out@ =~= whole);
    proof {
        crate::math::ceil_div_covers(whole.len() as int, 4);
        assert(whole + zeros(0) =~= whole);
    }
    while out.len() % 4 != 0
        invariant
            whole.len() <= out@.len() <= align_up(whole.len() as int, 4),
            align_up(whole.len() as int, 4) < whole.len() + 4,
            align_up(whole.len() as int, 4) % 4 == 0,
            out@ == whole + zeros(out@.len() - whole.len()),
        decreases align_up(whole.len() as int, 4) - out@.len(),
    {
        let ghost before = out@;
        out.push(0);
        assert(out@ =~= whole + zeros(out@.len() - whole.len()));
    }
}

/// The shared table of the first `n` contexts.
pub open spec fn table_of(contexts: Seq<Seq<char>>, n: int) -> Seq<u8>
    decreases n,
{
    if n <= 0 {
        Seq::empty()
    } else {
        padded4(
            table_of(contexts, n - 1) + entry_bytes(
                INDEX_SECURITY,
                selinux_name(),
                encode_utf8(contexts[n - 1]),
            ),
        )
    }
}

/// Pack contexts into a shared attribute table. Gives the table and, for
/// each context, the number of its entry: its offset in units of four bytes.
pub fn pack_shared_table(contexts: &[String]) -> (r: (Vec<u8>, Vec<u32>))
    ensures
        r.0@ == table_of(texts(contexts@), contexts@.len() as int),
        r.1@.len() == contexts@.len(),
        forall|i: int|
            0 <= i < contexts@.len() ==> #[trigger] r.1@[i] == (table_of(
                texts(contexts@),
                i,
            ).len() / 4) as u32,
{
    let mut table: Vec<u8> = Vec::new();
    let mut ids: Vec<u32> = Vec::new();
    let ghost all = texts(contexts@);
    let name: [u8; 7] = [115, 101, 108, 105, 110, 117, 120];
    assert(name@ =~= selinux_name());
    let mut i: usize = 0;
    while i < contexts.len()
        invariant
            i <= contexts.len(),
            all == texts(contexts@),
            name@ == selinux_name(),
            table@ == table_of(all, i as int),
            ids@.len() == i,
            forall|k: int|
                0 <= k < i ==> #[trigger] ids@[k] == (table_of(all, k).len() / 4) as u32,
        decreases contexts.len() - i,
    {
        ids.push((table.len() / 4) as u32);
        encode_entry(INDEX_SECURITY, &name, contexts[i].as_str().as_bytes(), &mut table);
        i += 1;
    }
    (table, ids)
}

/// The words of a sequence of numbers.
pub open spec fn words(ids: Seq<u32>) -> Seq<u8>
    decreases ids.len(),
{
    if ids.len() == 0 {
        Seq::empty()
    } else {
        words(ids.drop_last()) + bytes32(ids.last())
    }
}

/// An inline area with shared entries only.
pub open spec fn area_of(ids: Seq<u32>) -> Seq<u8> {
    bytes32(0) + bytes32(ids.len() as u32) + bytes32(0) + words(ids)
}

/// Inline area bytes for `shared_ids`: a header and the numbers.
pub fn area_bytes(shared_ids: &[u32]) -> (area: Vec<u8>)
    ensures
        area@ == area_of(shared_ids@),
{
    let mut area: Vec<u8> = Vec::new();
    push32(&mut area, 0);
    push32(&mut area, shared_ids.len() as u32);
    push32(&mut area, 0);
    let ghost head = bytes32(0) + bytes32(shared_ids@.len() as u32) + bytes32(0);
    assert(area@ =~= head + words(shared_ids@.take(0)));
    let mut i: usize = 0;
    while i < shared_ids.len()
        invariant
            i <= shared_ids.len(),
            area@ == head + words(shared_ids@.take(i as int)),
        decreases shared_ids.len() - i,
    {
        push32(&mut area, shared_ids[i]);
        proof {
            let next = shared_ids@.take(i + 1);
            assert(next.drop_last() =~= shared_ids@.take(i as int));
            assert(next.last() == shared_ids@[i as int]);
            assert(area@ =~= head + words(next));
        }
        i += 1;
    }
    assert(shared_ids@.take(i as int) =~= shared_ids@);
    area
}

} // verus!
