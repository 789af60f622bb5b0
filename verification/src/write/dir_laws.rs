//! What reading a directory gives back of what was written.
use super::layout::{
    fit_end, fit_end_bounds, item_head, item_heads, item_names, items_block, items_of,
    packed_items, Item,
};
use super::node::NodeView;
use crate::buf::{
    bytes16, bytes64, le16, le16_of_bytes16, le64, le64_of_bytes64, le_in_window, zeros,
};
use crate::error::Fault;
use crate::fs::erofs::dir::{
    block_entries, block_entry, dir_block, parsed, parsed_block, parsed_from, RawView,
};
use crate::text::{padded_text, text_of, trim_end_drops, trim_keeps};
use vstd::prelude::*;
use vstd::utf8::encode_utf8;

verus! {

/// An entry as it is read: the name is the text that the bytes stand for.
pub open spec fn item_view(e: Item) -> RawView {
    RawView { nid: e.nid, file_type: e.kind, name: text_of(e.name) }
}

/// The entries as they are read.
pub open spec fn item_views(s: Seq<Item>) -> Seq<RawView> {
    s.map_values(|e: Item| item_view(e))
}

/// An entry that can be told apart from the padding: it has a number and a
/// name, and the name has no NUL character.
pub open spec fn readable_item(e: Item) -> bool {
    &&& e.nid != 0
    &&& exists|t: Seq<char>|
        e.name == #[trigger] encode_utf8(t) && t.len() > 0 && !t.contains('\0')
}

proof fn encoding_is_not_empty(t: Seq<char>)
    requires
        t.len() > 0,
    ensures
        encode_utf8(t).len() > 0,
{
    vstd::utf8::encode_utf8_first_scalar(t);
}

proof fn heads_window(s: Seq<Item>, first: int, i: int)
    requires
        0 <= i < s.len(),
    ensures
        item_heads(s, first).len() == s.len() * 12,
        item_heads(s, first).subrange(i * 12, i * 12 + 12) == item_head(
            s[i],
            first + item_names(s.take(i)).len(),
        ),
    decreases s.len(),
{
    let front = s.drop_last();
    heads_len(front, first);
    let all = item_heads(s, first);
    if i == s.len() - 1 {
        assert(s.take(i) =~= front);
        assert(all.subrange(i * 12, i * 12 + 12) =~= item_head(
            s.last(),
            first + item_names(front).len(),
        ));
    } else {
        heads_window(front, first, i);
        assert(front.take(i) =~= s.take(i));
        assert(all.subrange(i * 12, i * 12 + 12) =~= item_heads(front, first).subrange(
            i * 12,
            i * 12 + 12,
        ));
    }
}

proof fn heads_len(s: Seq<Item>, first: int)
    ensures
        item_heads(s, first).len() == s.len() * 12,
    decreases s.len(),
{
    if s.len() > 0 {
        heads_len(s.drop_last(), first);
    }
}

proof fn names_window(s: Seq<Item>, i: int)
    requires
        0 <= i < s.len(),
    ensures
        item_names(s.take(i)).len() + s[i].name.len() == item_names(s.take(i + 1)).len(),
        item_names(s.take(i + 1)).len() <= item_names(s).len(),
        item_names(s).subrange(
            item_names(s.take(i)).len() as int,
            item_names(s.take(i + 1)).len() as int,
        ) == s[i].name,
    decreases s.len(),
{
    let front = s.drop_last();
    let t = s.take(i + 1);
    assert(t.drop_last() =~= s.take(i));
    assert(t.last() == s[i]);
    if i == s.len() - 1 {
        assert(t =~= s);
        assert(s.take(i) =~= front);
        assert(item_names(s).subrange(
            item_names(front).len() as int,
            item_names(s).len() as int,
        ) =~= s[i].name);
    } else {
        names_window(front, i);
        assert(front.take(i) =~= s.take(i));
        assert(front.take(i + 1) =~= s.take(i + 1));
        let a = item_names(s.take(i)).len() as int;
        let b = item_names(s.take(i + 1)).len() as int;
        assert(item_names(s).subrange(a, b) =~= item_names(front).subrange(a, b));
    }
}

proof fn fits_u16(n: int)
    requires
        0 <= n < 65536,
    ensures
        (n as u16) as int == n,
{
}

/// The fixed part of an entry of a block is read back.
proof fn head_reads_back(s: Seq<Item>, pad: nat, i: int)
    requires
        0 <= i < s.len(),
        s.len() * 12 + item_names(s).len() + pad <= 65536,
        readable_item(s[i]),
    ensures
        ({
            let x = items_block(s) + zeros(pad as int);
            &&& le64(x, i * 12) == s[i].nid
            &&& le16(x, i * 12 + 8) == s.len() * 12 + item_names(s.take(i)).len()
            &&& x[i * 12 + 10] == s[i].kind
            &&& item_names(s.take(i)).len() + s[i].name.len() <= item_names(s).len()
        }),
{
    let first = s.len() as int * 12;
    let x = items_block(s) + zeros(pad as int);
    heads_window(s, first, i);
    names_window(s, i);
    let e = s[i];
    let t = choose|t: Seq<char>|
        e.name == #[trigger] encode_utf8(t) && t.len() > 0 && !t.contains('\0');
    encoding_is_not_empty(t);
    let from = first + item_names(s.take(i)).len();
    let w = x.subrange(i * 12, i * 12 + 12);
    assert(w =~= item_head(e, from)) by {
        assert(w =~= item_heads(s, first).subrange(i * 12, i * 12 + 12));
    }
    le64_of_bytes64(e.nid);
    le16_of_bytes16(from as u16);
    assert(w.subrange(0, 8) =~= bytes64(e.nid));
    assert(w.subrange(8, 10) =~= bytes16(from as u16));
    le_in_window(w, 0, bytes64(e.nid), 0);
    le_in_window(w, 8, bytes16(from as u16), 0);
    le_in_window(x, i * 12, w, 0);
    le_in_window(x, i * 12, w, 8);
    fits_u16(from);
    assert(w[10] == e.kind);
}

/// The name of an entry of a block is where the fixed parts say.
proof fn name_reads_back(s: Seq<Item>, pad: nat, i: int)
    requires
        0 <= i < s.len(),
    ensures
        ({
            let x = items_block(s) + zeros(pad as int);
            let first = s.len() as int * 12;
            let from = first + item_names(s.take(i)).len();
            if i + 1 < s.len() {
                x.subrange(from, first + item_names(s.take(i + 1)).len()) == s[i].name
            } else {
                x.subrange(from, x.len() as int) == s[i].name + zeros(pad as int)
            }
        }),
{
    let first = s.len() as int * 12;
    let names = item_names(s);
    let x = items_block(s) + zeros(pad as int);
    names_window(s, i);
    heads_len(s, first);
    let from = first + item_names(s.take(i)).len();
    let to = first + item_names(s.take(i + 1)).len();
    assert(x.subrange(from, to) =~= names.subrange(from - first, to - first));
    if i + 1 == s.len() {
        assert(s.take(i + 1) =~= s);
        assert(x.subrange(from, x.len() as int) =~= x.subrange(from, to) + zeros(pad as int));
    }
}

/// One entry of a block is read back.
proof fn entry_reads_back(s: Seq<Item>, pad: nat, i: int)
    requires
        0 <= i < s.len(),
        s.len() * 12 + item_names(s).len() + pad <= 65536,
        forall|k: int| 0 <= k < s.len() ==> readable_item(#[trigger] s[k]),
    ensures
        block_entry(items_block(s) + zeros(pad as int), s.len() as int, i) == Some(
            item_view(s[i]),
        ),
        le16(items_block(s) + zeros(pad as int), i * 12 + 8) == s.len() * 12 + item_names(
            s.take(i),
        ).len(),
{
    let e = s[i];
    let t = choose|t: Seq<char>|
        e.name == #[trigger] encode_utf8(t) && t.len() > 0 && !t.contains('\0');
    head_reads_back(s, pad, i);
    head_reads_back(s, pad, 0);
    assert(s.take(0) =~= Seq::empty());
    name_reads_back(s, pad, i);
    heads_len(s, s.len() as int * 12);
    padded_text(t, 0);
    if i + 1 < s.len() {
        head_reads_back(s, pad, i + 1);
        names_window(s, i);
        assert(i * 12 + 20 == (i + 1) * 12 + 8);
        trim_keeps(t);
    } else {
        assert(zeros(pad as int) =~= Seq::new(pad, |k: int| 0u8));
        padded_text(t, pad);
        trim_end_drops(t, pad);
    }
}

proof fn entries_read_back(s: Seq<Item>, pad: nat, i: int)
    requires
        0 <= i <= s.len(),
        s.len() * 12 + item_names(s).len() + pad <= 65536,
        forall|k: int| 0 <= k < s.len() ==> readable_item(#[trigger] s[k]),
    ensures
        block_entries(items_block(s) + zeros(pad as int), s.len() as int, i) == item_views(
            s.skip(i),
        ),
    decreases s.len() - i,
{
    if i < s.len() {
        entry_reads_back(s, pad, i);
        entries_read_back(s, pad, i + 1);
        assert(item_views(s.skip(i)) =~= seq![item_view(s[i])] + item_views(s.skip(i + 1)));
    } else {
        assert(item_views(s.skip(i)) =~= Seq::empty());
    }
}

proof fn block_reads_back(s: Seq<Item>, pad: nat, index: int)
    requires
        s.len() > 0,
        s.len() * 12 + item_names(s).len() + pad <= 65536,
        forall|k: int| 0 <= k < s.len() ==> readable_item(#[trigger] s[k]),
    ensures
        parsed_block(items_block(s) + zeros(pad as int), index) == Ok::<Seq<RawView>, Fault>(
            item_views(s),
        ),
{
    let x = items_block(s) + zeros(pad as int);
    entry_reads_back(s, pad, 0);
    entries_read_back(s, pad, 0);
    heads_len(s, s.len() as int * 12);
    assert(s.take(0) =~= Seq::empty());
    assert(s.skip(0) =~= s);
    assert((s.len() * 12) / 12 == s.len());
}

proof fn items_read_back(s: Seq<Item>, start: int, block_size: int, data: Seq<u8>, index: int)
    requires
        0 <= start < s.len(),
        0 < block_size <= 65536,
        0 <= index,
        packed_items(s, start, block_size) is Some,
        index * block_size <= data.len(),
        data.skip(index * block_size) == packed_items(s, start, block_size)->Some_0,
        forall|k: int| 0 <= k < s.len() ==> readable_item(#[trigger] s[k]),
    ensures
        parsed_from(data, block_size, index) == Ok::<Seq<RawView>, Fault>(
            item_views(s.skip(start)),
        ),
    decreases s.len() - start,
{
    let end = fit_end(s, start, start, block_size);
    fit_end_bounds(s, start, start, block_size);
    let part = s.subrange(start, end);
    let block = items_block(part);
    heads_len(part, part.len() as int * 12);
    let at = index * block_size;
    assert((index + 1) * block_size == at + block_size) by (nonlinear_arith)
        requires
            at == index * block_size,
    ;
    let rest = data.skip(at);
    assert(forall|k: int| 0 <= k < part.len() ==> #[trigger] part[k] == s[start + k]);
    assert(s.skip(start).take(end - start) =~= part);
    if end == s.len() {
        assert(rest =~= block);
        assert(data.len() == at + block.len());
        assert(dir_block(data, block_size, index) =~= block + zeros(0));
        block_reads_back(part, 0, index);
        assert(s.skip(start) =~= part);
        assert(item_views(part) + Seq::<RawView>::empty() =~= item_views(part));
    } else {
        let pad = block_size - block.len();
        let tail = packed_items(s, end, block_size)->Some_0;
        assert(packed_items(s, end, block_size) is Some);
        assert(rest =~= block + zeros(pad) + tail);
        tail_is_not_empty(s, end, block_size);
        assert(dir_block(data, block_size, index) =~= block + zeros(pad)) by {
            assert(data.subrange(at, at + block_size) =~= rest.subrange(0, block_size));
        }
        block_reads_back(part, pad as nat, index);
        assert(data.skip((index + 1) * block_size) =~= tail) by {
            assert(data.skip(at + block_size) =~= rest.skip(block_size));
        }
        items_read_back(s, end, block_size, data, index + 1);
        assert(item_views(part) + item_views(s.skip(end)) =~= item_views(s.skip(start)));
    }
}

proof fn tail_is_not_empty(s: Seq<Item>, start: int, block_size: int)
    requires
        0 <= start < s.len(),
        packed_items(s, start, block_size) is Some,
    ensures
        packed_items(s, start, block_size)->Some_0.len() > 0,
{
    let end = fit_end(s, start, start, block_size);
    fit_end_bounds(s, start, start, block_size);
    heads_len(s.subrange(start, end), s.subrange(start, end).len() as int * 12);
}

/// Reading a directory gives back its entries: the directory itself, its
/// parent and its children, where every entry fits into a block, every name
/// is there and has no NUL character, and every number is there.
pub proof fn directories_read_back(n: NodeView, block_size: int)
    requires
        0 < block_size <= 65536,
        packed_items(items_of(n), 0, block_size) is Some,
        n.nid != 0,
        n.parent_nid != 0,
        forall|k: int|
            0 <= k < n.children.len() ==> {
                &&& (#[trigger] n.children[k]).nid != 0
                &&& n.children[k].name.len() > 0
                &&& !n.children[k].name.contains('\0')
            },
    ensures
        parsed(packed_items(items_of(n), 0, block_size)->Some_0, block_size) == Ok::<
            Seq<RawView>,
            Fault,
        >(item_views(items_of(n))),
{
    let s = items_of(n);
    assert forall|k: int| 0 <= k < s.len() implies readable_item(#[trigger] s[k]) by {
        reveal_strlit(".");
        reveal_strlit("..");
        if k == 0 {
            assert(s[k].name == encode_utf8("."@));
        } else if k == 1 {
            assert(s[k].name == encode_utf8(".."@));
        } else {
            let c = n.children[k - 2];
            assert(s[k].name == encode_utf8(c.name));
        }
    }
    let data = packed_items(s, 0, block_size)->Some_0;
    assert(data.skip(0) =~= data);
    assert(0 * block_size == 0);
    items_read_back(s, 0, block_size, data, 0);
    assert(s.skip(0) =~= s);
}

} // verus!
