//! What the label of a file is, said of the bytes that hold it.
use super::inode::label_of;
use super::selinux::{block_label, inode_label, label_from, selinux_name};
use super::Superblock;
use crate::buf::{bytes16, bytes32, le16, le16_of_bytes16, le32, le32_of_bytes32, le_in_window};
use crate::error::Fault;
use crate::math::{align_up, ceil_div_covers};
use crate::text::{text_of, trim_both};
use vstd::prelude::*;

verus! {

/// An attribute as an entry of a list describes it: the number of its prefix,
/// its name, and where its value stands.
#[verifier::ext_equal]
pub struct Attribute {
    pub prefix: u8,
    pub name: Seq<u8>,
    pub offset: u16,
    pub inode: u32,
    pub size: u32,
    pub hash: u32,
}

impl Attribute {
    /// The entry of the attribute, without the padding behind it.
    pub open spec fn bytes(self) -> Seq<u8> {
        seq![self.name.len() as u8, self.prefix] + bytes16(self.offset) + bytes32(self.inode)
            + bytes32(self.size) + bytes32(self.hash) + self.name
    }

    /// The attribute is `security.selinux`, with its value in the list's own
    /// block or inode.
    pub open spec fn is_label(self) -> bool {
        &&& self.prefix == 6
        &&& self.name == seq![0x73u8, 0x65, 0x6c, 0x69, 0x6e, 0x75, 0x78]
        &&& self.inode == 0
    }
}

/// The entries of the attributes stand one behind the other from `at` on, each
/// at a multiple of four bytes. `places` are their places, and the one behind
/// them.
pub open spec fn stand(x: Seq<u8>, at: int, list: Seq<Attribute>, places: Seq<int>) -> bool {
    &&& places.len() == list.len() + 1
    &&& places[0] == at
    &&& forall|k: int|
        #![trigger list[k]]
        0 <= k < list.len() ==> {
            &&& 0 < list[k].name.len() <= 255
            &&& 0 <= places[k]
            &&& places[k] + 16 + list[k].name.len() <= x.len()
            &&& x.subrange(places[k], places[k] + 16 + list[k].name.len()) == list[k].bytes()
            &&& places[k + 1] % 4 == 0
            &&& 0 <= places[k + 1] - (places[k] + 16 + list[k].name.len()) < 4
        }
}

proof fn six_parts(a: Seq<u8>, b: Seq<u8>, c: Seq<u8>, e: Seq<u8>, f: Seq<u8>, g: Seq<u8>)
    requires
        a.len() == 2,
        b.len() == 2,
        c.len() == 4,
        e.len() == 4,
        f.len() == 4,
    ensures
        ({
            let x = a + b + c + e + f + g;
            &&& x.len() == 16 + g.len()
            &&& x.subrange(0, 2) == a
            &&& x.subrange(2, 4) == b
            &&& x.subrange(4, 8) == c
            &&& x.subrange(8, 12) == e
            &&& x.subrange(16, x.len() as int) == g
        }),
{
}

/// The fields of an entry that stands somewhere.
proof fn fields_of_an_entry(x: Seq<u8>, at: int, a: Attribute)
    requires
        0 < a.name.len() <= 255,
        0 <= at,
        at + 16 + a.name.len() <= x.len(),
        x.subrange(at, at + 16 + a.name.len()) == a.bytes(),
    ensures
        x[at] == a.name.len(),
        x[at + 1] == a.prefix,
        le16(x, at + 2) == a.offset,
        le32(x, at + 4) == a.inode,
        le32(x, at + 8) == a.size,
        x.subrange(at + 16, at + 16 + a.name.len()) == a.name,
{
    let b = a.bytes();
    let kind = seq![a.name.len() as u8, a.prefix];
    le16_of_bytes16(a.offset);
    le32_of_bytes32(a.inode);
    le32_of_bytes32(a.size);
    le32_of_bytes32(a.hash);
    six_parts(
        kind,
        bytes16(a.offset),
        bytes32(a.inode),
        bytes32(a.size),
        bytes32(a.hash),
        a.name,
    );
    assert(b.subrange(0, 2)[0] == b[0] && b.subrange(0, 2)[1] == b[1]);
    assert(x[at] == b[0]);
    assert(x[at + 1] == b[1]);
    assert(x.subrange(at + 2, at + 4) =~= b.subrange(2, 4));
    assert(x.subrange(at + 4, at + 8) =~= b.subrange(4, 8));
    assert(x.subrange(at + 8, at + 12) =~= b.subrange(8, 12));
    assert(x.subrange(at + 16, at + 16 + a.name.len()) =~= b.subrange(16, b.len() as int));
    le_in_window(x, at + 2, x.subrange(at + 2, at + 4), 0);
    le_in_window(x, at + 4, x.subrange(at + 4, at + 8), 0);
    le_in_window(x, at + 8, x.subrange(at + 8, at + 12), 0);
}

proof fn fields_are_passed(x: Seq<u8>, at: int, end: int, next: int, base: int)
    requires
        0 <= at,
        at + 16 < end <= x.len(),
        end == at + 16 + x[at],
        next % 4 == 0,
        0 <= next - end < 4,
        !(x[at + 1] == 6 && x.subrange(at + 16, end) == selinux_name() && le32(x, at + 4) == 0
            && base + le16(x, at + 2) + le32(x, at + 8) <= x.len()),
    ensures
        label_from(x, at, base) == label_from(x, next, base),
{
    ceil_div_covers(end, 4);
    assert(align_up(end, 4) == next);
}

/// One entry that is not the label is passed by.
proof fn other_entries_are_passed(x: Seq<u8>, at: int, next: int, a: Attribute, base: int)
    requires
        0 < a.name.len() <= 255,
        0 <= at,
        at + 16 + a.name.len() <= x.len(),
        x.subrange(at, at + 16 + a.name.len()) == a.bytes(),
        next % 4 == 0,
        0 <= next - (at + 16 + a.name.len()) < 4,
        !a.is_label() || base + a.offset + a.size > x.len(),
    ensures
        label_from(x, at, base) == label_from(x, next, base),
{
    fields_of_an_entry(x, at, a);
    assert(selinux_name() =~= seq![0x73u8, 0x65, 0x6c, 0x69, 0x6e, 0x75, 0x78]);
    fields_are_passed(x, at, at + 16 + a.name.len(), next, base);
}

/// The label among attributes that stand in a list is the value of the first
/// one that is called `security.selinux`, counted from `base`; there is none
/// where no attribute is called so and the list ends behind them.
proof fn labels_in_lists(
    x: Seq<u8>,
    at: int,
    base: int,
    list: Seq<Attribute>,
    places: Seq<int>,
    k: int,
)
    requires
        0 <= base,
        stand(x, at, list, places),
        0 <= k <= list.len(),
        forall|j: int| 0 <= j < k ==> !(#[trigger] list[j]).is_label(),
    ensures
        k < list.len() && list[k].is_label() && base + list[k].offset + list[k].size <= x.len()
            ==> label_from(x, at, base) == Some(
            trim_both(
                text_of(
                    x.subrange(
                        base + list[k].offset,
                        base + list[k].offset + list[k].size,
                    ),
                ),
            ),
        ),
        k == list.len() && (places[k] + 16 > x.len() || x[places[k]] == 0) ==> label_from(
            x,
            at,
            base,
        ) is None,
    decreases list.len(),
{
    if k == 0 {
        if list.len() > 0 {
            fields_of_an_entry(x, at, list[0]);
            assert(selinux_name() =~= seq![0x73u8, 0x65, 0x6c, 0x69, 0x6e, 0x75, 0x78]);
        }
    } else {
        assert(!list[0].is_label());
        other_entries_are_passed(x, at, places[1], list[0], base);
        let rest = list.drop_first();
        let more = places.drop_first();
        assert(stand(x, places[1], rest, more)) by {
            assert forall|j: int| #![trigger rest[j]] 0 <= j < rest.len() implies {
                &&& 0 < rest[j].name.len() <= 255
                &&& 0 <= more[j]
                &&& more[j] + 16 + rest[j].name.len() <= x.len()
                &&& x.subrange(more[j], more[j] + 16 + rest[j].name.len()) == rest[j].bytes()
                &&& more[j + 1] % 4 == 0
                &&& 0 <= more[j + 1] - (more[j] + 16 + rest[j].name.len()) < 4
            } by {
                assert(rest[j] == list[j + 1]);
            }
        }
        assert forall|j: int| 0 <= j < k - 1 implies !(#[trigger] rest[j]).is_label() by {
            assert(rest[j] == list[j + 1]);
        }
        labels_in_lists(x, places[1], base, rest, more, k - 1);
        if k < list.len() {
            assert(rest[k - 1] == list[k]);
        }
    }
}

/// The label in an attribute block: behind a header of 32 bytes, which starts
/// with the magic, stand the entries of the attributes. The label is the text of
/// the bytes that the first entry called `security.selinux` names, counted from
/// the start of the block; without such an entry there is no label.
pub proof fn labels_of_blocks(x: Seq<u8>, list: Seq<Attribute>, places: Seq<int>, k: int)
    requires
        x.len() >= 32,
        x.take(4) == bytes32(0xea02_0000),
        stand(x, 32, list, places),
        0 <= k <= list.len(),
        forall|j: int| 0 <= j < k ==> !(#[trigger] list[j]).is_label(),
    ensures
        k < list.len() && list[k].is_label() && list[k].offset + list[k].size <= x.len()
            ==> block_label(x) == Some(
            trim_both(
                text_of(
                    x.subrange(list[k].offset as int, list[k].offset + list[k].size),
                ),
            ),
        ),
        k == list.len() && (places[k] + 16 > x.len() || x[places[k]] == 0) ==> block_label(
            x,
        ) is None,
{
    le32_of_bytes32(0xea02_0000);
    le_in_window(x, 0, x.take(4), 0);
    assert(x.take(4) =~= x.subrange(0, 4));
    labels_in_lists(x, 32, 0, list, places, k);
}

/// A block without the magic has no label.
pub proof fn other_blocks_have_no_label(x: Seq<u8>)
    requires
        x.len() < 32 || x.take(4) != bytes32(0xea02_0000),
    ensures
        block_label(x) is None,
{
    if x.len() >= 32 && le32(x, 0) == 0xea02_0000 {
        magic_bytes(x);
    }
}

proof fn magic_bytes(x: Seq<u8>)
    requires
        x.len() >= 4,
        le32(x, 0) == 0xea02_0000,
    ensures
        x.take(4) == bytes32(0xea02_0000),
{
    le32_of_bytes32(0xea02_0000);
    let b = bytes32(0xea02_0000);
    assert(le32(b, 0) == le32(x, 0));
    assert(x.take(4) =~= b);
}

/// The label in an inode: behind the extra fields, whose length stands in front
/// of them, stands the magic, and behind it the entries of the attributes. The
/// label is the text of the bytes that the first entry called `security.selinux`
/// names, counted from the first entry.
pub proof fn labels_of_inodes(
    x: Seq<u8>,
    extra: u16,
    list: Seq<Attribute>,
    places: Seq<int>,
    k: int,
)
    requires
        132 + extra <= x.len(),
        x.subrange(128, 130) == bytes16(extra),
        x.subrange(128 + extra, 132 + extra) == bytes32(0xea02_0000),
        stand(x, 132 + extra, list, places),
        0 <= k <= list.len(),
        forall|j: int| 0 <= j < k ==> !(#[trigger] list[j]).is_label(),
    ensures
        ({
            let first = 132 + extra;
            &&& k < list.len() && list[k].is_label() && first + list[k].offset + list[k].size
                <= x.len() ==> inode_label(x) == Some(
                trim_both(
                    text_of(
                        x.subrange(
                            first + list[k].offset,
                            first + list[k].offset + list[k].size,
                        ),
                    ),
                ),
            )
            &&& k == list.len() && (places[k] + 16 > x.len() || x[places[k]] == 0)
                ==> inode_label(x) is None
        }),
{
    le16_of_bytes16(extra);
    le32_of_bytes32(0xea02_0000);
    le_in_window(x, 128, x.subrange(128, 130), 0);
    le_in_window(x, 128 + extra, x.subrange(128 + extra, 132 + extra), 0);
    labels_in_lists(x, 132 + extra, 132 + extra, list, places, k);
}

/// The label of a file whose inode has none of its own, and names a block of
/// attributes: the text that the first entry called `security.selinux` of that
/// block names.
pub proof fn labels_of_files(
    sb: Superblock,
    d: Seq<u8>,
    raw: Seq<u8>,
    b: u32,
    list: Seq<Attribute>,
    places: Seq<int>,
    k: int,
)
    requires
        128 <= raw.len(),
        inode_label(raw) is None,
        raw.subrange(104, 108) == bytes32(b),
        raw.len() >= 132 ==> raw.subrange(130, 132) == bytes16(0),
        0 < b < sb.block_count,
        32 <= sb.block_size <= 0x1_0000_0000,
        b * sb.block_size + sb.block_size <= d.len() <= u64::MAX,
        d.subrange(b * sb.block_size, b * sb.block_size + 4) == bytes32(0xea02_0000),
        stand(
            d.subrange(b * sb.block_size, b * sb.block_size + sb.block_size),
            32,
            list,
            places,
        ),
        0 <= k < list.len(),
        forall|j: int| 0 <= j < k ==> !(#[trigger] list[j]).is_label(),
        list[k].is_label(),
        list[k].offset + list[k].size <= sb.block_size,
    ensures
        ({
            let from = b * sb.block_size + list[k].offset;
            label_of(sb, d, raw) == Ok::<Option<Seq<char>>, Fault>(
                Some(trim_both(text_of(d.subrange(from, from + list[k].size)))),
            )
        }),
{
    let bs = sb.block_size as int;
    let x = d.subrange(b * bs, b * bs + bs);
    assert(b * bs >= 0) by (nonlinear_arith)
        requires
            b >= 0,
            bs >= 0,
    ;
    assert(x.take(4) =~= d.subrange(b * bs, b * bs + 4));
    labels_of_blocks(x, list, places, k);
    le32_of_bytes32(b);
    le_in_window(raw, 104, raw.subrange(104, 108), 0);
    if raw.len() >= 132 {
        le16_of_bytes16(0);
        le_in_window(raw, 130, raw.subrange(130, 132), 0);
    }
    let o = list[k].offset as int;
    let n = list[k].size as int;
    assert(x.subrange(o, o + n) =~= d.subrange(b * bs + o, b * bs + o + n));
}

} // verus!
