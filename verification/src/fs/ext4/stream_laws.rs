//! Streaming a file gives what reading it whole gives.
use super::inode::{
    arranged, arranged_is_sorted, data_of, entry_extents, extent_body, extents_from, extents_of,
    inline_link, inode_extents, stream_from, streamed, with_extent, with_extents, Extent,
    InodeView,
};
use crate::buf::zeros;
use crate::error::Fault;
use crate::math::{greatest, least};
use crate::stream::pieces_are_the_range;
use vstd::prelude::*;

verus! {

/// No two extents hold the same block of the file.
pub open spec fn apart(s: Seq<Extent>) -> bool {
    forall|i: int, j: int|
        0 <= i < j < s.len() && (#[trigger] s[i]).length > 0 && (#[trigger] s[j]).length > 0
            ==> s[i].logical_block + s[i].length <= s[j].logical_block || s[j].logical_block
            + s[j].length <= s[i].logical_block
}

/// Whether a written extent holds byte `p` of the file.
pub open spec fn covers(bs: int, e: Extent, p: int) -> bool {
    !e.unwritten && e.logical_block * bs <= p < e.logical_block * bs + e.length * bs
}

/// Extents in logical order that do not overlap, in bytes.
spec fn in_line(bs: int, s: Seq<Extent>) -> bool {
    forall|i: int, j: int|
        0 <= i < j < s.len() ==> {
            &&& (#[trigger] s[i]).logical_block * bs <= (#[trigger] s[j]).logical_block * bs
            &&& s[i].length > 0 && s[j].length > 0 ==> s[i].logical_block * bs + s[i].length * bs
                <= s[j].logical_block * bs
        }
}

/// The byte `v` is what the extents say of the byte `p` of the file.
spec fn is_byte(d: Seq<u8>, bs: int, s: Seq<Extent>, p: int, v: u8) -> bool {
    &&& forall|i: int|
        0 <= i < s.len() && covers(bs, #[trigger] s[i], p) ==> v == d[s[i].physical_block * bs + (p
            - s[i].logical_block * bs)]
    &&& (forall|i: int| 0 <= i < s.len() ==> !covers(bs, #[trigger] s[i], p)) ==> v == 0
}

/// An extent can be read as far as it reaches into a file of `size` bytes.
spec fn readable(d: Seq<u8>, bs: int, size: int, e: Extent) -> bool {
    &&& e.logical_block * bs <= u64::MAX
    &&& e.length * bs <= u64::MAX
    &&& !e.unwritten && e.length > 0 && e.logical_block * bs < size ==> {
        &&& e.physical_block * bs <= u64::MAX
        &&& e.physical_block * bs + least(e.length * bs, size - e.logical_block * bs) <= d.len()
    }
}

// ---------------------------------------------------------------------
// Extents
// ---------------------------------------------------------------------
proof fn scaled(a: int, b: int, c: int, bs: int)
    requires
        0 <= bs,
        a + b <= c,
    ensures
        a * bs + b * bs <= c * bs,
{
    assert(a * bs + b * bs <= c * bs) by (nonlinear_arith)
        requires
            0 <= bs,
            a + b <= c,
    ;
}

proof fn extent_bytes(e: Extent, bs: int)
    requires
        0 < bs,
    ensures
        0 <= e.logical_block * bs,
        0 <= e.length * bs,
        0 <= e.physical_block * bs,
        e.length > 0 ==> 0 < e.length * bs,
        e.length == 0 ==> e.length * bs == 0,
{
    assert(0 <= e.logical_block * bs && 0 <= e.length * bs && 0 <= e.physical_block * bs)
        by (nonlinear_arith)
        requires
            0 < bs,
    ;
    assert(e.length > 0 ==> 0 < e.length * bs) by (nonlinear_arith)
        requires
            0 < bs,
    ;
}

/// A byte is held once.
proof fn covered_once(bs: int, s: Seq<Extent>, i: int, j: int, p: int)
    requires
        0 < bs,
        apart(s),
        0 <= i < s.len(),
        0 <= j < s.len(),
        covers(bs, s[i], p),
        covers(bs, s[j], p),
    ensures
        i == j,
{
    extent_bytes(s[i], bs);
    extent_bytes(s[j], bs);
    let a = s[i];
    let b = s[j];
    if i != j {
        if a.logical_block + a.length <= b.logical_block {
            scaled(a.logical_block as int, a.length as int, b.logical_block as int, bs);
        } else {
            if i < j {
                assert(s[i].length > 0 && s[j].length > 0);
            } else {
                assert(s[j].length > 0 && s[i].length > 0);
            }
            scaled(b.logical_block as int, b.length as int, a.logical_block as int, bs);
        }
    }
}

proof fn apart_tail(s: Seq<Extent>)
    requires
        apart(s),
        s.len() > 0,
    ensures
        apart(s.drop_first()),
{
    let t = s.drop_first();
    assert forall|i: int, j: int|
        0 <= i < j < t.len() && (#[trigger] t[i]).length > 0 && (
        #[trigger] t[j]).length > 0 implies t[i].logical_block + t[i].length <= t[j].logical_block
        || t[j].logical_block + t[j].length <= t[i].logical_block by {
        assert(t[i] == s[i + 1] && t[j] == s[j + 1]);
    }
}

/// Two lists with the same extents.
proof fn same_extents(s: Seq<Extent>, t: Seq<Extent>, i: int) -> (j: int)
    requires
        s.to_multiset() == t.to_multiset(),
        0 <= i < s.len(),
    ensures
        0 <= j < t.len(),
        t[j] == s[i],
{
    broadcast use vstd::seq_lib::group_to_multiset_ensures;

    assert(s.contains(s[i]));
    assert(s.to_multiset().count(s[i]) > 0);
    assert(t.contains(s[i]));
    choose|j: int| 0 <= j < t.len() && t[j] == s[i]
}

/// Arranged extents that do not overlap are in line.
proof fn arranged_is_in_line(bs: int, s: Seq<Extent>)
    requires
        0 < bs,
        apart(s),
    ensures
        in_line(bs, arranged(s)),
{
    let t = arranged(s);
    arranged_is_sorted(s);
    arranged_is_apart(s);
    assert forall|i: int, j: int| 0 <= i < j < t.len() implies {
        &&& (#[trigger] t[i]).logical_block * bs <= (#[trigger] t[j]).logical_block * bs
        &&& t[i].length > 0 && t[j].length > 0 ==> t[i].logical_block * bs + t[i].length * bs
            <= t[j].logical_block * bs
    } by {
        let a = t[i];
        let b = t[j];
        assert(t[i].logical_block <= t[j].logical_block);
        scaled(a.logical_block as int, 0, b.logical_block as int, bs);
        if a.length > 0 && b.length > 0 {
            assert(a.logical_block + a.length <= b.logical_block);
            scaled(a.logical_block as int, a.length as int, b.logical_block as int, bs);
        }
    }
}

/// Where an extent goes, the others keep their distance.
proof fn inserted_is_apart(rest: Seq<Extent>, e: Extent, p: int)
    requires
        apart(rest.push(e)),
        0 <= p <= rest.len(),
    ensures
        apart(rest.insert(p, e)),
{
    let all = rest.push(e);
    let t = rest.insert(p, e);
    let n = rest.len() as int;
    assert forall|i: int, j: int|
        0 <= i < j < t.len() && (#[trigger] t[i]).length > 0 && (
        #[trigger] t[j]).length > 0 implies t[i].logical_block + t[i].length <= t[j].logical_block
        || t[j].logical_block + t[j].length <= t[i].logical_block by {
        let a = if i < p {
            i
        } else if i == p {
            n
        } else {
            i - 1
        };
        let b = if j < p {
            j
        } else if j == p {
            n
        } else {
            j - 1
        };
        assert(t[i] == all[a] && t[j] == all[b]);
        if a < b {
            assert(all[a].length > 0 && all[b].length > 0);
        } else {
            assert(all[b].length > 0 && all[a].length > 0);
        }
    }
}

/// Extents that keep their distance from another one do so in any order.
proof fn arranged_is_apart(s: Seq<Extent>)
    requires
        apart(s),
    ensures
        apart(arranged(s)),
    decreases s.len(),
{
    if s.len() > 0 {
        let init = s.drop_last();
        let e = s.last();
        assert(apart(init)) by {
            assert forall|i: int, j: int|
                0 <= i < j < init.len() && (#[trigger] init[i]).length > 0 && (
                #[trigger] init[j]).length > 0 implies init[i].logical_block + init[i].length
                <= init[j].logical_block || init[j].logical_block + init[j].length
                <= init[i].logical_block by {
                assert(init[i] == s[i] && init[j] == s[j]);
            }
        }
        arranged_is_apart(init);
        arranged_is_sorted(init);
        arranged_is_sorted(s);
        let rest = arranged(init);
        let all = rest.push(e);
        assert forall|i: int, j: int|
            0 <= i < j < all.len() && (#[trigger] all[i]).length > 0 && (
            #[trigger] all[j]).length > 0 implies all[i].logical_block + all[i].length
            <= all[j].logical_block || all[j].logical_block + all[j].length
            <= all[i].logical_block by {
            if j < rest.len() {
                assert(all[i] == rest[i] && all[j] == rest[j]);
            } else {
                let k = same_extents(rest, init, i);
                assert(all[i] == s[k]);
                assert(all[j] == s[s.len() - 1]);
            }
        }
        super::inode::place_in_range(rest, e);
        inserted_is_apart(rest, e, super::inode::place(rest, e));
    }
}

// ---------------------------------------------------------------------
// Lengths
// ---------------------------------------------------------------------
spec fn are_short(s: Seq<Extent>) -> bool {
    forall|i: int| 0 <= i < s.len() ==> (#[trigger] s[i]).length < 0x8000
}

proof fn node_extents_are_short(d: Seq<u8>, bs: int, node: Seq<u8>, depth: int, entries: int)
    ensures
        extents_of(d, bs, node, depth, entries) matches Ok(s) ==> are_short(s),
    decreases depth, 1int, 0int,
{
    if 0 <= depth <= 16 {
        rest_extents_are_short(d, bs, node, depth, 0, least((node.len() - 12) / 12, entries));
    }
}

proof fn entry_extents_are_short(d: Seq<u8>, bs: int, node: Seq<u8>, depth: int, i: int)
    ensures
        entry_extents(d, bs, node, depth, i) matches Ok(s) ==> are_short(s),
    decreases depth, 0int, 0int,
{
    if depth > 0 {
        let at = 12 + i * 12;
        let physical = crate::buf::le32(node, at + 4) + 0x1_0000_0000 * crate::buf::le16(
            node,
            at + 8,
        );
        match crate::image::disk_read(d, physical * bs, bs) {
            Ok(child) => {
                if crate::buf::le16(child, 6) < depth {
                    node_extents_are_short(
                        d,
                        bs,
                        child,
                        crate::buf::le16(child, 6) as int,
                        crate::buf::le16(child, 2) as int,
                    );
                }
            },
            Err(_) => {},
        }
    }
}

proof fn rest_extents_are_short(
    d: Seq<u8>,
    bs: int,
    node: Seq<u8>,
    depth: int,
    i: int,
    count: int,
)
    ensures
        extents_from(d, bs, node, depth, i, count) matches Ok(s) ==> are_short(s),
    decreases depth, 0int, 1 + count - i,
{
    if i < count {
        entry_extents_are_short(d, bs, node, depth, i);
        rest_extents_are_short(d, bs, node, depth, i + 1, count);
    }
}

// ---------------------------------------------------------------------
// Reading
// ---------------------------------------------------------------------
proof fn reading_one(d: Seq<u8>, bs: int, e: Extent, data: Seq<u8>, p: int)
    requires
        0 < bs,
        with_extent(d, bs, e, data) is Ok,
        0 <= p < data.len(),
    ensures
        ({
            let out = with_extent(d, bs, e, data)->Ok_0;
            &&& out.len() == data.len()
            &&& covers(bs, e, p) ==> out[p] == d[e.physical_block * bs + (p - e.logical_block
                * bs)]
            &&& !covers(bs, e, p) ==> out[p] == data[p]
        }),
{
    extent_bytes(e, bs);
}

proof fn reading_gives_bytes(d: Seq<u8>, bs: int, s: Seq<Extent>, data: Seq<u8>, p: int)
    requires
        0 < bs,
        apart(s),
        with_extents(d, bs, s, data) is Ok,
        0 <= p < data.len(),
    ensures
        ({
            let out = with_extents(d, bs, s, data)->Ok_0;
            &&& out.len() == data.len()
            &&& forall|i: int|
                0 <= i < s.len() && covers(bs, #[trigger] s[i], p) ==> out[p]
                    == d[s[i].physical_block * bs + (p - s[i].logical_block * bs)]
            &&& (forall|i: int| 0 <= i < s.len() ==> !covers(bs, #[trigger] s[i], p)) ==> out[p]
                == data[p]
        }),
    decreases s.len(),
{
    if s.len() > 0 {
        let rest = s.drop_first();
        let next = with_extent(d, bs, s[0], data)->Ok_0;
        let out = with_extents(d, bs, s, data)->Ok_0;
        reading_one(d, bs, s[0], data, p);
        apart_tail(s);
        reading_gives_bytes(d, bs, rest, next, p);
        if covers(bs, s[0], p) {
            assert forall|i: int| 0 <= i < rest.len() implies !covers(bs, #[trigger] rest[i], p) by {
                assert(rest[i] == s[i + 1]);
                if covers(bs, s[i + 1], p) {
                    covered_once(bs, s, 0, i + 1, p);
                }
            }
        }
        assert forall|i: int| 0 <= i < s.len() && covers(bs, #[trigger] s[i], p) implies out[p]
            == d[s[i].physical_block * bs + (p - s[i].logical_block * bs)] by {
            if i > 0 {
                assert(s[i] == rest[i - 1]);
            }
        }
        if forall|i: int| 0 <= i < s.len() ==> !covers(bs, #[trigger] s[i], p) {
            assert forall|i: int| 0 <= i < rest.len() implies !covers(bs, #[trigger] rest[i], p) by {
                assert(rest[i] == s[i + 1]);
            }
        }
    }
}

/// What can be read whole can be read extent by extent.
proof fn reading_reads_each(d: Seq<u8>, bs: int, s: Seq<Extent>, data: Seq<u8>, i: int)
    requires
        0 < bs <= 0x1_0000_0000,
        are_short(s),
        with_extents(d, bs, s, data) is Ok,
        0 <= i < s.len(),
    ensures
        readable(d, bs, data.len() as int, s[i]),
    decreases s.len(),
{
    let e = s[i];
    if i > 0 {
        let rest = s.drop_first();
        let next = with_extent(d, bs, s[0], data)->Ok_0;
        extent_bytes(s[0], bs);
        assert(next.len() == data.len());
        assert(are_short(rest)) by {
            assert forall|k: int| 0 <= k < rest.len() implies (#[trigger] rest[k]).length
                < 0x8000 by {
                assert(rest[k] == s[k + 1]);
            }
        }
        assert(rest[i - 1] == e);
        reading_reads_each(d, bs, rest, next, i - 1);
    } else {
        extent_bytes(e, bs);
        assert(e.length < 0x8000);
        assert(e.length * bs <= 0x8000 * 0x1_0000_0000) by (nonlinear_arith)
            requires
                e.length < 0x8000,
                bs <= 0x1_0000_0000,
        ;
    }
}

// ---------------------------------------------------------------------
// Streaming
// ---------------------------------------------------------------------
/// Nothing that is still to come starts in front of `cursor`.
spec fn ahead(bs: int, s: Seq<Extent>, cursor: int) -> bool {
    forall|k: int|
        0 <= k < s.len() && (#[trigger] s[k]).length > 0 ==> cursor <= s[k].logical_block * bs
}

proof fn streaming_gives_bytes(
    d: Seq<u8>,
    bs: int,
    size: int,
    s: Seq<Extent>,
    cursor: int,
)
    requires
        0 < bs,
        d.len() <= u64::MAX,
        in_line(bs, s),
        0 <= cursor,
        cursor < size ==> ahead(bs, s, cursor),
        forall|i: int| 0 <= i < s.len() ==> readable(d, bs, size, #[trigger] s[i]),
    ensures
        stream_from(d, bs, size, s, cursor) matches Ok(out) && {
            &&& out.len() == greatest(size - cursor, 0)
            &&& forall|p: int|
                cursor <= p < size ==> is_byte(d, bs, s, p, #[trigger] out[p - cursor])
        },
    decreases s.len(),
{
    if cursor < size && s.len() > 0 {
        let e = s[0];
        let rest = s.drop_first();
        let start = e.logical_block * bs;
        let len = e.length * bs;
        let from = least(greatest(start, cursor), size);
        let end = greatest(from, least(start + len, size));
        extent_bytes(e, bs);
        assert(readable(d, bs, size, e));
        body_is_there(d, bs, size, e, cursor, from, end);
        assert(in_line(bs, rest)) by {
            assert forall|i: int, j: int| 0 <= i < j < rest.len() implies {
                &&& (#[trigger] rest[i]).logical_block * bs <= (#[trigger] rest[j]).logical_block
                    * bs
                &&& rest[i].length > 0 && rest[j].length > 0 ==> rest[i].logical_block * bs
                    + rest[i].length * bs <= rest[j].logical_block * bs
            } by {
                assert(rest[i] == s[i + 1] && rest[j] == s[j + 1]);
            }
        }
        assert(end < size ==> ahead(bs, rest, end)) by {
            assert forall|k: int| 0 <= k < rest.len() && (
            #[trigger] rest[k]).length > 0 && end < size implies end <= rest[k].logical_block
                * bs by {
                assert(rest[k] == s[k + 1]);
                assert(s[0].logical_block * bs <= s[k + 1].logical_block * bs);
            }
        }
        assert forall|i: int| 0 <= i < rest.len() implies readable(
            d,
            bs,
            size,
            #[trigger] rest[i],
        ) by {
            assert(rest[i] == s[i + 1]);
        }
        streaming_gives_bytes(d, bs, size, rest, end);
        let x = extent_body(d, bs, e, from - start, end - from)->Ok_0;
        let tail = stream_from(d, bs, size, rest, end)->Ok_0;
        let out = stream_from(d, bs, size, s, cursor)->Ok_0;
        assert(out == zeros(from - cursor) + x + tail);
        assert forall|p: int| cursor <= p < size implies is_byte(
            d,
            bs,
            s,
            p,
            #[trigger] out[p - cursor],
        ) by {
            if p < end {
                front_bytes(d, bs, size, s, cursor, from, end, x, p, out[p - cursor]);
            } else {
                assert(out[p - cursor] == tail[p - end]);
                assert(is_byte(d, bs, rest, p, tail[p - end]));
                rest_bytes(d, bs, s, p, end, size, out[p - cursor]);
            }
        }
    } else if cursor < size {
        let out = stream_from(d, bs, size, s, cursor)->Ok_0;
        assert forall|p: int| cursor <= p < size implies is_byte(
            d,
            bs,
            s,
            p,
            #[trigger] out[p - cursor],
        ) by {}
    }
}

/// The body of an extent can be streamed, and gives its bytes.
proof fn body_is_there(
    d: Seq<u8>,
    bs: int,
    size: int,
    e: Extent,
    cursor: int,
    from: int,
    end: int,
)
    requires
        0 < bs,
        d.len() <= u64::MAX,
        readable(d, bs, size, e),
        0 <= cursor < size,
        e.length > 0 ==> cursor <= e.logical_block * bs,
        from == least(greatest(e.logical_block * bs, cursor), size),
        end == greatest(from, least(e.logical_block * bs + e.length * bs, size)),
    ensures
        extent_body(d, bs, e, from - e.logical_block * bs, end - from) matches Ok(x) && {
            &&& x.len() == end - from
            &&& e.unwritten ==> x == zeros(end - from)
            &&& !e.unwritten && end > from ==> x == d.subrange(
                e.physical_block * bs + (from - e.logical_block * bs),
                e.physical_block * bs + (end - e.logical_block * bs),
            )
        },
{
    extent_bytes(e, bs);
    let start = e.logical_block * bs;
    if !e.unwritten && end > from {
        assert(e.length > 0);
        assert(from == start);
        pieces_are_the_range(d, e.physical_block * bs, end - from);
    }
}

/// The bytes up to the end of the first extent.
proof fn front_bytes(
    d: Seq<u8>,
    bs: int,
    size: int,
    s: Seq<Extent>,
    cursor: int,
    from: int,
    end: int,
    x: Seq<u8>,
    p: int,
    v: u8,
)
    requires
        0 < bs,
        s.len() > 0,
        in_line(bs, s),
        ahead(bs, s, cursor),
        cursor <= p < end <= size,
        from == least(greatest(s[0].logical_block * bs, cursor), size),
        end == greatest(from, least(s[0].logical_block * bs + s[0].length * bs, size)),
        x.len() == end - from,
        s[0].unwritten ==> x == zeros(end - from),
        !s[0].unwritten && end > from ==> s[0].physical_block * bs + (end - s[0].logical_block * bs)
            <= d.len() && x == d.subrange(
            s[0].physical_block * bs + (from - s[0].logical_block * bs),
            s[0].physical_block * bs + (end - s[0].logical_block * bs),
        ),
        p < from ==> v == 0,
        from <= p ==> v == x[p - from],
    ensures
        is_byte(d, bs, s, p, v),
{
    let e = s[0];
    extent_bytes(e, bs);
    assert forall|i: int| 0 < i < s.len() implies !covers(bs, #[trigger] s[i], p) by {
        extent_bytes(s[i], bs);
        if covers(bs, s[i], p) {
            assert(s[0].logical_block * bs <= s[i].logical_block * bs);
        }
    }
    assert forall|i: int| 0 <= i < s.len() && covers(bs, #[trigger] s[i], p) implies v
        == d[s[i].physical_block * bs + (p - s[i].logical_block * bs)] by {
        assert(i == 0);
        assert(from == e.logical_block * bs);
    }
    if forall|i: int| 0 <= i < s.len() ==> !covers(bs, #[trigger] s[i], p) {
        assert(!covers(bs, s[0], p));
    }
}

/// The bytes behind the first extent.
proof fn rest_bytes(d: Seq<u8>, bs: int, s: Seq<Extent>, p: int, end: int, size: int, v: u8)
    requires
        0 < bs,
        s.len() > 0,
        end <= p < size,
        least(s[0].logical_block * bs + s[0].length * bs, size) <= end,
        is_byte(d, bs, s.drop_first(), p, v),
    ensures
        is_byte(d, bs, s, p, v),
{
    let rest = s.drop_first();
    assert(!covers(bs, s[0], p));
    assert forall|i: int| 0 <= i < s.len() && covers(bs, #[trigger] s[i], p) implies v
        == d[s[i].physical_block * bs + (p - s[i].logical_block * bs)] by {
        assert(s[i] == rest[i - 1]);
    }
    if forall|i: int| 0 <= i < s.len() ==> !covers(bs, #[trigger] s[i], p) {
        assert forall|i: int| 0 <= i < rest.len() implies !covers(bs, #[trigger] rest[i], p) by {
            assert(rest[i] == s[i + 1]);
        }
    }
}

// ---------------------------------------------------------------------
// The law
// ---------------------------------------------------------------------
/// Two bytes that the same extents say something of are the same.
proof fn bytes_agree(d: Seq<u8>, bs: int, s: Seq<Extent>, t: Seq<Extent>, p: int, a: u8, b: u8)
    requires
        s.to_multiset() == t.to_multiset(),
        is_byte(d, bs, s, p, a),
        is_byte(d, bs, t, p, b),
    ensures
        a == b,
{
    if exists|i: int| 0 <= i < s.len() && covers(bs, #[trigger] s[i], p) {
        let i = choose|i: int| 0 <= i < s.len() && covers(bs, #[trigger] s[i], p);
        let j = same_extents(s, t, i);
        assert(covers(bs, t[j], p));
    } else {
        assert forall|j: int| 0 <= j < t.len() implies !covers(bs, #[trigger] t[j], p) by {
            let i = same_extents(t, s, j);
            assert(!covers(bs, s[i], p));
        }
    }
}

/// A file that can be read whole can be streamed, and both give the same
/// bytes, where no two of its extents hold the same block. Their order does
/// not matter.
pub proof fn streaming_agrees_with_reading(d: Seq<u8>, bs: int, inode: InodeView)
    requires
        0 < bs <= 0x1_0000_0000,
        d.len() <= u64::MAX,
        inode.block.len() == 60,
        data_of(d, bs, inode) is Ok,
        inode_extents(d, bs, inode) matches Ok(s) ==> apart(s),
    ensures
        streamed(d, bs, inode) == data_of(d, bs, inode),
{
    if inode.size > 0 && !inline_link(inode) {
        let s = inode_extents(d, bs, inode)->Ok_0;
        let size = inode.size as int;
        let blank = zeros(size);
        let t = arranged(s);
        assert(are_short(s)) by {
            node_extents_are_short(
                d,
                bs,
                inode.block,
                crate::buf::le16(inode.block, 6) as int,
                crate::buf::le16(inode.block, 2) as int,
            );
        }
        arranged_is_sorted(s);
        arranged_is_in_line(bs, s);
        assert forall|i: int| 0 <= i < t.len() implies readable(d, bs, size, #[trigger] t[i]) by {
            let k = same_extents(t, s, i);
            reading_reads_each(d, bs, s, blank, k);
        }
        assert forall|k: int| 0 <= k < t.len() && (#[trigger] t[k]).length > 0 implies 0
            <= t[k].logical_block * bs by {
            extent_bytes(t[k], bs);
        }
        streaming_gives_bytes(d, bs, size, t, 0);
        let a = streamed(d, bs, inode)->Ok_0;
        let b = data_of(d, bs, inode)->Ok_0;
        reading_gives_bytes(d, bs, s, blank, 0);
        assert forall|p: int| 0 <= p < size implies a[p] == b[p] by {
            reading_gives_bytes(d, bs, s, blank, p);
            assert(is_byte(d, bs, s, p, b[p]));
            assert(is_byte(d, bs, t, p, a[p - 0]));
            bytes_agree(d, bs, s, t, p, b[p], a[p]);
        }
        assert(a =~= b);
    } else {
        assert(inode.size == 0 ==> inode.block.subrange(0, 0) =~= Seq::empty());
    }
}

/// The content of a file that is mapped by extents, no two of which hold the same
/// block: a byte in a written extent is the one that stands at the same place of
/// the blocks of the extent; every other byte is zero.
pub proof fn contents_are_what_is_mapped(d: Seq<u8>, bs: int, inode: InodeView, p: int)
    requires
        0 < bs <= 0x1_0000_0000,
        inode.mode & 0xf000 != 0xa000 || inode.size > 60,
        data_of(d, bs, inode) is Ok,
        inode_extents(d, bs, inode) matches Ok(s) ==> apart(s),
        0 <= p < inode.size,
    ensures
        ({
            let s = inode_extents(d, bs, inode)->Ok_0;
            let c = data_of(d, bs, inode)->Ok_0;
            &&& c.len() == inode.size
            &&& forall|i: int|
                0 <= i < s.len() && !(#[trigger] s[i]).unwritten && s[i].logical_block * bs <= p
                    < s[i].logical_block * bs + s[i].length * bs ==> c[p] == d[s[i].physical_block * bs
                    + (p - s[i].logical_block * bs)]
            &&& (forall|i: int|
                0 <= i < s.len() ==> (#[trigger] s[i]).unwritten || !(s[i].logical_block * bs <= p
                    < s[i].logical_block * bs + s[i].length * bs)) ==> c[p] == 0
        }),
{
    let s = inode_extents(d, bs, inode)->Ok_0;
    reading_gives_bytes(d, bs, s, zeros(inode.size as int), p);
}

/// The target of a short symbolic link stands in the inode itself.
pub proof fn short_links_stand_in_the_inode(d: Seq<u8>, bs: int, inode: InodeView)
    requires
        inode.mode & 0xf000 == 0xa000,
        inode.size <= 60,
        inode.block.len() == 60,
    ensures
        data_of(d, bs, inode) == Ok::<Seq<u8>, Fault>(inode.block.take(inode.size as int)),
{
    assert(inode.block.subrange(0, inode.size as int) =~= inode.block.take(inode.size as int));
}

} // verus!
