//! The index of a compressed file, said of the words that its packs hold.
use super::packed_images::block_bits_are_known;
use crate::buf::{le16, le32, le_in_window};
use crate::error::Fault;
use crate::fs::erofs::compress::{
    blocks_before, cluster_size, entries_from, entry_at, index_of, packing, slot, CompactEntry,
    Packing,
};
use crate::fs::erofs::inode::Inode;
use crate::fs::erofs::Superblock;
use crate::image::disk_read;
use crate::math::{ceil_div, ceil_div_covers, greatest};
use vstd::arithmetic::power2::pow2;
use vstd::prelude::*;

verus! {

/// The number that `n` bytes make, the lowest one first.
pub open spec fn number_at(d: Seq<u8>, at: int, n: int) -> int
    decreases n,
{
    if n <= 0 {
        0
    } else {
        d[at] + 256 * number_at(d, at + 1, n - 1)
    }
}

/// How the words of an index are packed: `wide` words of 16 bits in front and as
/// many as are left behind, two of them in front of the block of their pack, and
/// `narrow` words of 14 bits in the middle, sixteen of them in front of the block
/// of their pack.
pub open spec fn is_packed(advise: u16, base: int, total: int, wide: int, narrow: int) -> bool {
    if advise % 2 == 0 {
        wide == 0 && narrow == 0
    } else {
        &&& 0 <= wide < 8
        &&& (base + 4 * wide) % 32 == 0
        &&& if wide < total {
            0 <= narrow && narrow % 16 == 0 && 0 <= total - wide - narrow < 16
        } else {
            narrow == 0
        }
    }
}

/// The word of a logical cluster.
pub open spec fn word_at(d: Seq<u8>, base: int, wide: int, narrow: int, lcn: int) -> int {
    if lcn < wide {
        le16(d, base + lcn / 2 * 8 + lcn % 2 * 2) as int
    } else if lcn < wide + narrow {
        let k = lcn - wide;
        number_at(d, base + 4 * wide + k / 16 * 32, 32) / pow2((14 * (k % 16)) as nat) as int
            % 0x4000
    } else {
        let k = lcn - wide - narrow;
        le16(d, base + 4 * wide + 2 * narrow + k / 2 * 8 + k % 2 * 2) as int
    }
}

/// The block that the first pack names.
pub open spec fn first_block_at(d: Seq<u8>, base: int, wide: int, narrow: int) -> int {
    if wide == 0 && narrow > 0 {
        le32(d, base + 28) as int
    } else {
        le32(d, base + 4) as int
    }
}

/// The words of an index are those of the kinds and values.
pub open spec fn words_stand(
    d: Seq<u8>,
    base: int,
    wide: int,
    narrow: int,
    low: int,
    e: Seq<(u8, u32)>,
) -> bool {
    forall|i: int|
        0 <= i < e.len() ==> {
            &&& (#[trigger] e[i]).0 < 4
            &&& e[i].1 < pow2(low as nat)
            &&& word_at(d, base, wide, narrow, i) == e[i].0 * pow2(low as nat) + e[i].1
        }
}

/// The entries that were read so far are the first ones of `e`.
spec fn first_ones(entries: Seq<CompactEntry>, e: Seq<(u8, u32)>) -> bool {
    &&& entries.len() <= e.len()
    &&& forall|i: int|
        0 <= i < entries.len() ==> (#[trigger] entries[i]).lcn == i && entries[i].kind == e[i].0
            && entries[i].value == e[i].1
}

// ---------------------------------------------------------------------
// Numbers
// ---------------------------------------------------------------------
proof fn numbers_shift(d: Seq<u8>, at: int, n: int, q: int)
    requires
        0 <= q <= n,
    ensures
        number_at(d, at, n) / pow2((8 * q) as nat) as int == number_at(d, at + q, n - q),
        number_at(d, at, n) >= 0,
    decreases q,
{
    number_is_natural(d, at, n);
    if q == 0 {
        vstd::arithmetic::power2::lemma2_to64();
        vstd::arithmetic::div_mod::lemma_div_basics_2(number_at(d, at, n));
    } else {
        let x = number_at(d, at, n);
        let y = number_at(d, at + 1, n - 1);
        number_is_natural(d, at + 1, n - 1);
        numbers_shift(d, at + 1, n - 1, q - 1);
        vstd::arithmetic::power2::lemma2_to64();
        vstd::arithmetic::power2::lemma_pow2_adds(8, (8 * (q - 1)) as nat);
        vstd::arithmetic::power2::lemma_pow2_pos((8 * (q - 1)) as nat);
        let p = pow2((8 * (q - 1)) as nat) as int;
        assert(8 + 8 * (q - 1) == 8 * q);
        assert(x / 256 == y);
        vstd::arithmetic::div_mod::lemma_div_denominator(x, 256, p);
    }
}

proof fn number_is_natural(d: Seq<u8>, at: int, n: int)
    ensures
        0 <= number_at(d, at, n),
    decreases n,
{
    if n > 0 {
        number_is_natural(d, at + 1, n - 1);
    }
}

proof fn lowest_bytes(d: Seq<u8>, at: int, n: int) -> (rest: int)
    requires
        n >= 4,
    ensures
        number_at(d, at, n) == le32(d, at) + 0x1_0000_0000 * rest,
        0 <= rest,
{
    reveal_with_fuel(number_at, 5);
    number_is_natural(d, at + 4, n - 4);
    number_at(d, at + 4, n - 4)
}

/// A field of 14 bits is found by the four bytes that it starts in.
proof fn narrow_words(d: Seq<u8>, at: int, k: int)
    requires
        0 <= k < 16,
    ensures
        number_at(d, at, 32) / pow2((14 * k) as nat) as int % 0x4000 == le32(
            d,
            at + 14 * k / 8,
        ) as int / pow2((14 * k % 8) as nat) as int % 0x4000,
        pow2((14 * k % 8) as nat) == 1 || pow2((14 * k % 8) as nat) == 4 || pow2(
            (14 * k % 8) as nat,
        ) == 16 || pow2((14 * k % 8) as nat) == 64,
{
    let q = 14 * k / 8;
    let s = 14 * k % 8;
    assert(s == 0 || s == 2 || s == 4 || s == 6);
    numbers_shift(d, at, 32, q);
    let rest = lowest_bytes(d, at + q, 32 - q);
    vstd::arithmetic::power2::lemma2_to64();
    vstd::arithmetic::power2::lemma_pow2_pos((8 * q) as nat);
    vstd::arithmetic::power2::lemma_pow2_pos(s as nat);
    vstd::arithmetic::power2::lemma_pow2_adds((8 * q) as nat, s as nat);
    assert(8 * q + s == 14 * k);
    let n = number_at(d, at, 32);
    vstd::arithmetic::div_mod::lemma_div_denominator(
        n,
        pow2((8 * q) as nat) as int,
        pow2(s as nat) as int,
    );
    let l = le32(d, at + q) as int;
    fields_of_low_bytes(l, rest);
}

proof fn fields_of_low_bytes(l: int, rest: int)
    requires
        0 <= l < 0x1_0000_0000,
        0 <= rest,
    ensures
        (l + 0x1_0000_0000 * rest) / 1 % 0x4000 == l / 1 % 0x4000,
        (l + 0x1_0000_0000 * rest) / 4 % 0x4000 == l / 4 % 0x4000,
        (l + 0x1_0000_0000 * rest) / 16 % 0x4000 == l / 16 % 0x4000,
        (l + 0x1_0000_0000 * rest) / 64 % 0x4000 == l / 64 % 0x4000,
{
    let n = l + 0x1_0000_0000 * rest;
    field_of_low_bytes(n, l, rest, 1, 0x4_0000);
    field_of_low_bytes(n, l, rest, 4, 0x1_0000);
    field_of_low_bytes(n, l, rest, 16, 0x4000);
    field_of_low_bytes(n, l, rest, 64, 0x1000);
}

proof fn field_of_low_bytes(n: int, l: int, rest: int, q: int, v: int)
    requires
        n == l + 0x1_0000_0000 * rest,
        0 < q,
        0 <= l,
        q * (0x4000 * v) == 0x1_0000_0000,
    ensures
        n / q % 0x4000 == l / q % 0x4000,
{
    let w = 0x4000 * v;
    vstd::arithmetic::div_mod::lemma_fundamental_div_mod(l, q);
    let a = l / q;
    assert(n == q * (a + w * rest) + l % q) by (nonlinear_arith)
        requires
            n == l + 0x1_0000_0000 * rest,
            l == q * a + l % q,
            q * w == 0x1_0000_0000,
    ;
    vstd::arithmetic::div_mod::lemma_fundamental_div_mod_converse(n, q, a + w * rest, l % q);
    vstd::arithmetic::div_mod::lemma_fundamental_div_mod(a, 0x4000);
    let b = a / 0x4000;
    assert(a + w * rest == 0x4000 * (b + v * rest) + a % 0x4000) by (nonlinear_arith)
        requires
            a == 0x4000 * b + a % 0x4000,
            w == 0x4000 * v,
    ;
    vstd::arithmetic::div_mod::lemma_fundamental_div_mod_converse(
        a + w * rest,
        0x4000,
        b + v * rest,
        a % 0x4000,
    );
}

/// The parts of a word, read from a number that has the word in its lowest bits.
proof fn parts_of_word(raw: int, width: int, low: int, kind: int, value: int)
    requires
        0 <= raw,
        (width == 0x4000 && low == 0x1000) || (width == 0x1_0000 && (low == 0x1000 || low == 0x2000
            || low == 0x4000)),
        0 <= kind < 4,
        0 <= value < low,
        raw % width == kind * low + value,
    ensures
        raw / low % 4 == kind,
        raw % low == value,
{
    let t = raw / width;
    let r = width / low;
    vstd::arithmetic::div_mod::lemma_fundamental_div_mod(raw, width);
    let m = kind + r * t;
    assert(raw == low * m + value) by (nonlinear_arith)
        requires
            raw == width * t + kind * low + value,
            m == kind + r * t,
            low * r == width,
    ;
    vstd::arithmetic::div_mod::lemma_fundamental_div_mod_converse(raw, low, m, value);
    let u = r / 4 * t;
    assert(m == kind + 4 * u) by (nonlinear_arith)
        requires
            m == kind + r * t,
            u == r / 4 * t,
            r == 16 || r == 8 || r == 4,
    ;
    vstd::arithmetic::div_mod::lemma_fundamental_div_mod_converse(m, 4, u, kind);
}

proof fn halves(d: Seq<u8>, at: int)
    ensures
        le32(d, at) as int % 0x1_0000 == le16(d, at),
{
    assert(le32(d, at) == le16(d, at) + 0x1_0000 * le16(d, at + 2));
}

// ---------------------------------------------------------------------
// Entries
// ---------------------------------------------------------------------
/// Where the pack of a logical cluster starts, which of its words is that of the
/// cluster, and how large the pack is.
spec fn pack_of(base: int, wide: int, narrow: int, lcn: int) -> (int, int, int) {
    if lcn < wide {
        (base + lcn / 2 * 8, lcn % 2, 8)
    } else if lcn < wide + narrow {
        (base + 4 * wide + (lcn - wide) / 16 * 32, (lcn - wide) % 16, 32)
    } else {
        let k = lcn - wide - narrow;
        (base + 4 * wide + 2 * narrow + k / 2 * 8, k % 2, 8)
    }
}

proof fn wide_place(at: int, k: int)
    requires
        0 <= at,
        at % 8 == 0,
        0 <= k,
    ensures
        (at + k * 4) / 8 * 8 == at + k / 2 * 8,
        (at + k * 4 - (at + k / 2 * 8)) / 4 == k % 2,
{
}

proof fn narrow_place(at: int, k: int)
    requires
        0 <= at,
        at % 32 == 0,
        0 <= k,
    ensures
        (at + k * 2) / 32 * 32 == at + k / 16 * 32,
        (at + k * 2 - (at + k / 16 * 32)) / 2 == k % 16,
{
}

proof fn places_of_words(base: int, wide: int, narrow: int, lcn: int)
    requires
        0 <= base,
        base % 8 == 0,
        0 <= lcn,
        0 <= wide,
        0 <= narrow,
        wide % 2 == 0,
        narrow % 16 == 0,
        narrow > 0 ==> (base + 4 * wide) % 32 == 0,
    ensures
        ({
            let p = Packing { base, initial: wide, middle: narrow };
            let (at, size) = slot(p, lcn);
            let (pack, index, length) = pack_of(base, wide, narrow, lcn);
            &&& size == if length == 32 {
                2int
            } else {
                4int
            }
            &&& at / length * length == pack
            &&& (at - pack) / size == index
            &&& 0 <= index <= lcn
            &&& 0 <= pack
            &&& index < 16
            &&& length == 8 ==> index < 2
        }),
{
    if lcn < wide {
        wide_place(base, lcn);
    } else if lcn - wide < narrow {
        narrow_place(base + wide * 4, lcn - wide);
    } else {
        wide_place(base + wide * 4 + narrow * 2, lcn - wide - narrow);
    }
}

proof fn one_entry(
    d: Seq<u8>,
    p: Packing,
    block_bits: int,
    inode: Inode,
    before: Seq<CompactEntry>,
    lcn: int,
    e: (u8, u32),
)
    requires
        0 <= p.base,
        p.base % 8 == 0,
        0 <= lcn <= u64::MAX,
        0 <= p.initial,
        0 <= p.middle,
        p.initial % 2 == 0,
        p.middle % 16 == 0,
        p.middle > 0 ==> (p.base + 4 * p.initial) % 32 == 0,
        d.len() <= u64::MAX,
        9 <= block_bits <= 14,
        p.middle > 0 ==> block_bits <= 12,
        inode.cluster_bits == 0,
        e.0 < 4,
        e.1 < pow2(greatest(block_bits, 12) as nat),
        word_at(d, p.base, p.initial, p.middle, lcn) == e.0 * pow2(
            greatest(block_bits, 12) as nat,
        ) + e.1,
        ({
            let (pack, index, length) = pack_of(p.base, p.initial, p.middle, lcn);
            pack + length <= d.len()
        }),
    ensures
        entry_at(d, p, block_bits, inode, before, lcn) matches Ok(x) && x.lcn == lcn && x.kind
            == e.0 && x.value == e.1,
        lcn == 0 && e.0 != 2 ==> entry_at(d, p, block_bits, inode, before, lcn)->Ok_0.pblk
            == first_block_at(d, p.base, p.initial, p.middle) + if inode.advise / 2 % 2 == 1 {
            0int
        } else {
            1
        },
{
    let (pack, index, length) = pack_of(p.base, p.initial, p.middle, lcn);
    places_of_words(p.base, p.initial, p.middle, lcn);
    let low = greatest(block_bits, 12);
    vstd::arithmetic::power2::lemma2_to64();
    let bit = index * if length == 32 {
        14int
    } else {
        16
    };
    let at = pack + bit / 8;
    assert(at + 4 <= pack + length);
    let x = d.subrange(at, at + 4);
    let trailer = d.subrange(pack + length - 4, pack + length);
    assert(disk_read(d, at, 4) == Ok::<Seq<u8>, Fault>(x));
    assert(disk_read(d, pack + length - 4, 4) == Ok::<Seq<u8>, Fault>(trailer));
    le_in_window(d, at, x, 0);
    le_in_window(d, pack + length - 4, trailer, 0);
    let raw = le32(x, 0) as int / pow2((bit % 8) as nat) as int;
    if length == 32 {
        assert(14 * index == bit);
        narrow_words(d, pack, index);
        parts_of_word(raw, 0x4000, 0x1000, e.0 as int, e.1 as int);
    } else {
        assert(bit % 8 == 0);
        assert(bit / 8 == index * 2);
        vstd::arithmetic::div_mod::lemma_div_basics_2(le32(x, 0) as int);
        halves(d, at);
        parts_of_word(raw, 0x1_0000, pow2(low as nat) as int, e.0 as int, e.1 as int);
    }
    if lcn == 0 {
        assert(index == 0);
        assert(blocks_before(before, 0, 0, 0, true) == 0);
        assert(blocks_before(before, 0, 0, 1, false) == 1);
    }
}

proof fn all_entries(
    d: Seq<u8>,
    p: Packing,
    block_bits: int,
    inode: Inode,
    before: Seq<CompactEntry>,
    e: Seq<(u8, u32)>,
)
    requires
        0 <= p.base,
        p.base % 8 == 0,
        e.len() <= u64::MAX,
        0 <= p.initial,
        0 <= p.middle,
        p.initial % 2 == 0,
        p.middle % 16 == 0,
        p.middle > 0 ==> (p.base + 4 * p.initial) % 32 == 0,
        d.len() <= u64::MAX,
        9 <= block_bits <= 14,
        p.middle > 0 ==> block_bits <= 12,
        inode.cluster_bits == 0,
        words_stand(d, p.base, p.initial, p.middle, greatest(block_bits, 12), e),
        packs_are_inside(d, p.base, p.initial, p.middle, e.len() as int),
        first_ones(before, e),
        e.len() > 0 ==> e[0].0 != 2,
        before.len() > 0 ==> before[0].pblk == first_block_at(d, p.base, p.initial, p.middle)
            + if inode.advise / 2 % 2 == 1 {
            0int
        } else {
            1
        },
    ensures
        entries_from(d, p, block_bits, inode, before, e.len() as int) matches Ok(all) && {
            &&& all.len() == e.len()
            &&& first_ones(all, e)
            &&& all.len() > 0 ==> all[0].pblk == first_block_at(d, p.base, p.initial, p.middle)
                + if inode.advise / 2 % 2 == 1 {
                0int
            } else {
                1
            }
        },
    decreases e.len() - before.len(),
{
    if before.len() < e.len() {
        let lcn = before.len() as int;
        assert(e[lcn].0 < 4);
        assert(pack_of(p.base, p.initial, p.middle, lcn).0 + pack_of(
            p.base,
            p.initial,
            p.middle,
            lcn,
        ).2 <= d.len());
        one_entry(d, p, block_bits, inode, before, lcn, e[lcn]);
        let x = entry_at(d, p, block_bits, inode, before, lcn)->Ok_0;
        let next = before.push(x);
        assert(first_ones(next, e)) by {
            assert forall|i: int| 0 <= i < next.len() implies (#[trigger] next[i]).lcn == i
                && next[i].kind == e[i].0 && next[i].value == e[i].1 by {
                if i < before.len() {
                    assert(next[i] == before[i]);
                }
            }
        }
        assert(next[0] == if lcn == 0 {
            x
        } else {
            before[0]
        });
        all_entries(d, p, block_bits, inode, next, e);
    }
}

/// The packs of an index are inside the image.
spec fn packs_are_inside(d: Seq<u8>, base: int, wide: int, narrow: int, total: int) -> bool {
    forall|i: int|
        0 <= i < total ==> (#[trigger] pack_of(base, wide, narrow, i)).0 + pack_of(
            base,
            wide,
            narrow,
            i,
        ).2 <= d.len()
}

proof fn packs_end(d: Seq<u8>, base: int, wide: int, narrow: int, total: int)
    requires
        0 <= wide,
        0 <= narrow,
        narrow % 16 == 0,
        wide % 2 == 0,
        base + 4 * wide + 2 * narrow + (greatest(total - wide - narrow, 0) + 1) / 2 * 8 <= d.len(),
        total < wide ==> base + (total + 1) / 2 * 8 <= d.len(),
        total >= wide + narrow || narrow == 0,
    ensures
        packs_are_inside(d, base, wide, narrow, total),
{
}

proof fn packing_is_known(inode: Inode, total: int, wide: int, narrow: int)
    requires
        inode.data_offset % 8 == 0,
        0 < total,
        is_packed(inode.advise, inode.data_offset + 8, total, wide, narrow),
    ensures
        packing(inode, total) == (Packing {
            base: inode.data_offset + 8,
            initial: wide,
            middle: narrow,
        }),
        wide % 2 == 0,
        narrow % 16 == 0,
        0 <= wide,
        0 <= narrow,
        narrow > 0 ==> (inode.data_offset + 8 + 4 * wide) % 32 == 0,
        total >= wide + narrow || narrow == 0,
{
    let base = inode.data_offset + 8;
    if inode.advise % 2 == 1 {
        assert(base % 32 == 0 || base % 32 == 8 || base % 32 == 16 || base % 32 == 24);
        assert(wide == if base % 32 == 0 {
            0
        } else {
            (32 - base % 32) / 4
        });
        if wide < total {
            assert((total - wide) / 16 * 16 == narrow);
        }
    }
}

/// The index of a compressed file reads as the words that its packs hold: one
/// for each logical cluster, with its kind and its value. With the first bit of
/// the advice, words of 14 bits stand in packs of sixteen, from the first
/// multiple of 32 bytes on, as many as fill their packs; all other words have 16
/// bits and stand in packs of two. The first pack names the block of the first
/// cluster, or with clusters of one block each the block in front of it.
pub proof fn words_read_back(
    fs: Superblock,
    d: Seq<u8>,
    inode: Inode,
    wide: int,
    narrow: int,
    bits: nat,
    e: Seq<(u8, u32)>,
)
    requires
        9 <= bits <= 14,
        fs.block_size == pow2(bits),
        inode.cluster_bits == 0,
        inode.data_offset % 8 == 0,
        d.len() <= u64::MAX,
        e.len() == ceil_div(inode.size as int, fs.block_size as int),
        e.len() > 0,
        e[0].0 != 2,
        is_packed(inode.advise, inode.data_offset + 8, e.len() as int, wide, narrow),
        narrow > 0 ==> bits <= 12,
        words_stand(
            d,
            inode.data_offset + 8,
            wide,
            narrow,
            if bits < 12 {
                12
            } else {
                bits as int
            },
            e,
        ),
        inode.data_offset + 8 + 4 * wide + 2 * narrow + (greatest(e.len() - wide - narrow, 0) + 1)
            / 2 * 8 <= d.len(),
    ensures
        index_of(fs, d, inode) matches Ok(all) && {
            &&& all.len() == e.len()
            &&& forall|i: int|
                0 <= i < all.len() ==> (#[trigger] all[i]).lcn == i && all[i].kind == e[i].0
                    && all[i].value == e[i].1
            &&& all[0].pblk == first_block_at(d, inode.data_offset + 8, wide, narrow)
                + if inode.advise / 2 % 2 == 1 {
                0int
            } else {
                1
            }
        },
{
    let base = inode.data_offset + 8;
    let total = e.len() as int;
    block_bits_are_known(fs, bits);
    assert(pow2(0) == 1) by {
        vstd::arithmetic::power2::lemma2_to64();
    }
    assert(fs.block_size * 1 == fs.block_size);
    assert(cluster_size(fs, inode) == fs.block_size);
    packing_is_known(inode, total, wide, narrow);
    let p = packing(inode, total);
    packs_end(d, base, wide, narrow, total);
    vstd::arithmetic::power2::lemma_pow2_pos(bits);
    assert(total <= inode.size) by {
        ceil_div_covers(inode.size as int, fs.block_size as int);
        assert(total <= inode.size) by (nonlinear_arith)
            requires
                total * fs.block_size < inode.size + fs.block_size,
                fs.block_size >= 1,
                total >= 0,
                inode.size >= 0,
        ;
    }
    assert(greatest(bits as int, 12) == if bits < 12 {
        12
    } else {
        bits as int
    });
    all_entries(d, p, bits as int, inode, Seq::empty(), e);
}

} // verus!
