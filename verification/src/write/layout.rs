//! Where the inodes and directories of a fresh EROFS image go.
use super::node::{
    all_preorder, children_seen, inode_slots, node_views, preorder, Node, NodeView, MAX_COMPACT_CLUSTERS,
};
use crate::buf::{
    bytes16, bytes64, pad_to, push16, push64, push_bytes, zeros,
};
use crate::error::{Error, Fault};
use crate::math::greatest;
use vstd::prelude::*;
use vstd::utf8::encode_utf8;

verus! {

// ---------------------------------------------------------------------
// Numbers
// ---------------------------------------------------------------------
/// Where the superblock starts and ends.
pub const SUPER_START: u64 = 1024;

/// Where the superblock ends.
pub const SUPER_END: u64 = 1152;

/// Whether the slots from `next` on stay clear of the superblock.
pub open spec fn clear_of_super(next: int, base: int, slots: int) -> bool {
    base + next * 32 >= SUPER_END || base + next * 32 + slots * 32 <= SUPER_START
}

/// The first number from `next` on whose slots stay clear of the superblock.
pub open spec fn clear_slot(next: int, base: int, slots: int) -> int
    decreases 36 - next,
{
    if next >= 36 || clear_of_super(next, base, slots) {
        next
    } else {
        clear_slot(next + 1, base, slots)
    }
}

/// What is found is clear, and nothing clear was passed over.
pub proof fn clear_slot_is_first(next: int, base: int, slots: int)
    requires
        base >= 0,
        next >= 0,
    ensures
        clear_slot(next, base, slots) >= next,
        clear_slot(next, base, slots) <= greatest(next, 36),
        clear_of_super(clear_slot(next, base, slots), base, slots),
        forall|k: int|
            next <= k < clear_slot(next, base, slots) ==> !#[trigger] clear_of_super(
                k,
                base,
                slots,
            ),
    decreases 36 - next,
{
    if next >= 36 || clear_of_super(next, base, slots) {
    } else {
        clear_slot_is_first(next + 1, base, slots);
        if next + 1 >= 36 {
            assert(clear_slot(next + 1, base, slots) == next + 1);
        }
    }
}

/// Advances to the first number whose slots stay clear of the superblock.
pub fn skip_superblock(next: u64, base: u64, slots: u64) -> (r: u64)
    requires
        1 <= slots <= MAX_COMPACT_CLUSTERS,
        base <= 0xff_ffff_ffff_ffff,
    ensures
        r == clear_slot(next as int, base as int, slots as int),
{
    let mut at = next;
    while at < 36 && base + at * 32 < SUPER_END && base + at * 32 + slots * 32 > SUPER_START
        invariant
            slots <= MAX_COMPACT_CLUSTERS,
            base <= 0xff_ffff_ffff_ffff,
            clear_slot(next as int, base as int, slots as int) == clear_slot(
                at as int,
                base as int,
                slots as int,
            ),
        decreases 36 - at,
    {
        at += 1;
    }
    at
}

/// The tree with numbers from `next` on, each node in front of what is below
/// it, and the number behind it.
pub open spec fn numbered(n: NodeView, next: int, parent: u64, base: int) -> Option<(NodeView, int)>
    decreases n,
{
    let at = clear_slot(next, base, n.slots());
    if at + n.slots() > u64::MAX {
        None
    } else {
        match all_numbered(n.children, at + n.slots(), at as u64, base) {
            None => None,
            Some((children, end)) => Some(
                (NodeView { nid: at as u64, parent_nid: parent, children, ..n }, end),
            ),
        }
    }
}

/// The trees with numbers from `next` on, and the number behind them.
pub open spec fn all_numbered(s: Seq<NodeView>, next: int, parent: u64, base: int) -> Option<
    (Seq<NodeView>, int),
>
    decreases s,
{
    if s.len() == 0 {
        Some((s, next))
    } else {
        match all_numbered(s.subrange(0, s.len() - 1), next, parent, base) {
            None => None,
            Some((done, mid)) => match numbered(s[s.len() - 1], mid, parent, base) {
                None => None,
                Some((n, end)) => Some((done.push(n), end)),
            },
        }
    }
}

/// Every file of the tree has a number of clusters that slots are counted
/// for.
pub open spec fn countable(n: NodeView) -> bool
    decreases n,
{
    &&& n.erofs_compact_clusters <= MAX_COMPACT_CLUSTERS
    &&& forall|i: int| 0 <= i < n.children.len() ==> countable(#[trigger] n.children[i])
}

proof fn numbering_fails_early(s: Seq<NodeView>, next: int, parent: u64, base: int, i: int)
    requires
        0 <= i <= s.len(),
        all_numbered(s.take(i), next, parent, base) is None,
    ensures
        all_numbered(s, next, parent, base) is None,
    decreases s.len(),
{
    if i == s.len() {
        assert(s.take(i) =~= s);
    } else {
        let t = s.subrange(0, s.len() - 1);
        assert(t.take(i) =~= s.take(i));
        numbering_fails_early(t, next, parent, base, i);
    }
}

/// Gives the nodes of the tree their numbers. The result is the number
/// behind the last one.
pub fn assign_nids_strided(node: &mut Node, next: u64, parent_nid: u64, base: u64) -> (r: Result<
    u64,
    Error,
>)
    requires
        countable(old(node)@),
        base <= 0xff_ffff_ffff_ffff,
    ensures
        match numbered(old(node)@, next as int, parent_nid, base as int) {
            Some((n, end)) => r is Ok && r->Ok_0 == end && final(node)@ == n,
            None => r is Err && r->Err_0@ == Fault::Invalid("EROFS inode offset overflow"@),
        },
    decreases *old(node),
{
    let slots = inode_slots(node);
    let at = skip_superblock(next, base, slots);
    node.nid = at;
    node.parent_nid = parent_nid;
    let mut mid = match at.checked_add(slots) {
        Some(n) => n,
        None => {
            return Err(Error::invalid("EROFS inode offset overflow"));
        },
    };
    let ghost first = node.children@;
    let ghost all = node_views(first);
    let ghost start = mid as int;
    let n = node.children.len();
    let mut i: usize = 0;
    assert(all.take(0) =~= Seq::empty());
    assert(node_views(node.children@).take(0) =~= Seq::empty());
    while i < n
        invariant
            i <= n == first.len() == node.children@.len(),
            first == old(node).children@,
            all == node_views(first),
            countable(old(node)@),
            base <= 0xff_ffff_ffff_ffff,
            forall|k: int| i <= k < n ==> node.children@[k] == first[k],
            *node == (Node { nid: at, parent_nid, children: node.children, ..*old(node) }),
            all_numbered(all.take(i as int), start, at, base as int) == Some(
                (node_views(node.children@).take(i as int), mid as int),
            ),
            numbered(old(node)@, next as int, parent_nid, base as int) == match all_numbered(
                all,
                start,
                at,
                base as int,
            ) {
                None => None::<(NodeView, int)>,
                Some((children, end)) => Some(
                    (NodeView { nid: at, parent_nid, children, ..old(node)@ }, end),
                ),
            },
        decreases n - i,
    {
        let ghost part = all.take(i + 1);
        proof {
            assert(part.subrange(0, part.len() - 1) =~= all.take(i as int));
            assert(part[part.len() - 1] == first[i as int]@);
            assert(all[i as int] == first[i as int]@);
            assert(old(node)@.children == all);
            assert(countable(all[i as int]));
        }
        let ghost before = node_views(node.children@);
        match assign_nids_strided(&mut node.children[i], mid, at, base) {
            Ok(end) => {
                mid = end;
            },
            Err(e) => {
                proof {
                    numbering_fails_early(all, start, at, base as int, i + 1);
                }
                return Err(e);
            },
        }
        proof {
            assert(node_views(node.children@).take(i + 1) =~= before.take(i as int).push(
                node.children@[i as int]@,
            ));
        }
        i += 1;
    }
    proof {
        assert(all.take(i as int) =~= all);
        assert(node_views(node.children@).take(i as int) =~= node_views(node.children@));
    }
    Ok(mid)
}

/// The slots of the nodes lie one behind the other from `from` up to `to`,
/// and stay clear of the superblock.
pub open spec fn spaced(s: Seq<NodeView>, from: int, to: int, base: int) -> bool
    decreases s.len(),
{
    if s.len() == 0 {
        from <= to
    } else {
        &&& s.last().nid + s.last().slots() <= to
        &&& clear_of_super(s.last().nid as int, base, s.last().slots())
        &&& spaced(s.drop_last(), from, s.last().nid as int, base)
    }
}

proof fn spaced_join(a: Seq<NodeView>, b: Seq<NodeView>, from: int, mid: int, to: int, base: int)
    requires
        spaced(a, from, mid, base),
        spaced(b, mid, to, base),
    ensures
        spaced(a + b, from, to, base),
    decreases b.len(),
{
    if b.len() == 0 {
        assert(a + b =~= a);
        spaced_loosen(a, from, mid, to, base);
    } else {
        assert((a + b).drop_last() =~= a + b.drop_last());
        spaced_join(a, b.drop_last(), from, mid, b.last().nid as int, base);
    }
}

proof fn spaced_loosen(s: Seq<NodeView>, from: int, to: int, more: int, base: int)
    requires
        spaced(s, from, to, base),
        to <= more,
    ensures
        spaced(s, from, more, base),
{
}

/// Numbering: the slots of no two nodes overlap, and none overlaps the
/// superblock.
pub proof fn numbering_keeps_slots_apart(n: NodeView, next: int, parent: u64, base: int)
    requires
        0 <= next,
        0 <= base,
    ensures
        numbered(n, next, parent, base) matches Some((t, end)) ==> spaced(
            preorder(t),
            next,
            end,
            base,
        ) && next <= end && t.nid + t.slots() <= end && next <= t.nid,
    decreases n,
{
    let at = clear_slot(next, base, n.slots());
    clear_slot_is_first(next, base, n.slots());
    slots_are_positive(n);
    if at + n.slots() <= u64::MAX {
        all_numbered_apart(n.children, at + n.slots(), at as u64, base);
        match all_numbered(n.children, at + n.slots(), at as u64, base) {
            None => {},
            Some((children, end)) => {
                let t = NodeView { nid: at as u64, parent_nid: parent, children, ..n };
                assert(t.slots() == n.slots());
                let own = seq![t];
                assert(own.drop_last() =~= Seq::empty());
                assert(spaced(own.drop_last(), next, at, base));
                assert(spaced(own, next, at + n.slots(), base));
                spaced_join(own, all_preorder(children), next, at + n.slots(), end, base);
            },
        }
    }
}

/// Every node takes a slot.
pub proof fn slots_are_positive(n: NodeView)
    ensures
        n.slots() >= 1,
{
    let c = n.erofs_compact_clusters as int;
    assert((c + 1) / 2 >= 0);
}

proof fn all_numbered_apart(s: Seq<NodeView>, next: int, parent: u64, base: int)
    requires
        0 <= next,
        0 <= base,
    ensures
        all_numbered(s, next, parent, base) matches Some((t, end)) ==> spaced(
            all_preorder(t),
            next,
            end,
            base,
        ) && next <= end,
    decreases s,
{
    if s.len() > 0 {
        let front = s.subrange(0, s.len() - 1);
        all_numbered_apart(front, next, parent, base);
        match all_numbered(front, next, parent, base) {
            None => {},
            Some((done, mid)) => {
                numbering_keeps_slots_apart(s[s.len() - 1], mid, parent, base);
                match numbered(s[s.len() - 1], mid, parent, base) {
                    None => {},
                    Some((n, end)) => {
                        let t = done.push(n);
                        assert(t.subrange(0, t.len() - 1) =~= done);
                        assert(t[t.len() - 1] == n);
                        spaced_join(
                            all_preorder(done),
                            preorder(n),
                            next,
                            mid,
                            end,
                            base,
                        );
                    },
                }
            },
        }
    }
}

// ---------------------------------------------------------------------
// Directories
// ---------------------------------------------------------------------
/// An entry of a directory: number, name and kind.
pub struct Item {
    pub nid: u64,
    pub name: Seq<u8>,
    pub kind: u8,
}

/// The entries of a directory: itself, its parent and its children.
pub open spec fn items_of(n: NodeView) -> Seq<Item> {
    seq![
        Item { nid: n.nid, name: encode_utf8("."@), kind: 2 },
        Item { nid: n.parent_nid, name: encode_utf8(".."@), kind: 2 },
    ] + n.children.map_values(
        |c: NodeView|
            Item {
                nid: c.nid,
                name: encode_utf8(c.name),
                kind: if c.is_dir() {
                    2
                } else {
                    1
                },
            },
    )
}

/// The names of the entries, one behind the other.
pub open spec fn item_names(s: Seq<Item>) -> Seq<u8>
    decreases s.len(),
{
    if s.len() == 0 {
        Seq::empty()
    } else {
        item_names(s.drop_last()) + s.last().name
    }
}

/// The fixed part of an entry.
pub open spec fn item_head(e: Item, name_offset: int) -> Seq<u8> {
    bytes64(e.nid) + bytes16(name_offset as u16) + seq![e.kind, 0u8]
}

/// The fixed parts of the entries, where the names start at `first`.
pub open spec fn item_heads(s: Seq<Item>, first: int) -> Seq<u8>
    decreases s.len(),
{
    if s.len() == 0 {
        Seq::empty()
    } else {
        item_heads(s.drop_last(), first) + item_head(
            s.last(),
            first + item_names(s.drop_last()).len(),
        )
    }
}

/// A block with the entries.
pub open spec fn items_block(s: Seq<Item>) -> Seq<u8> {
    item_heads(s, s.len() as int * 12) + item_names(s)
}

/// The entries from `end` on that still fit into the block that starts with
/// the entry `start`.
pub open spec fn fit_end(s: Seq<Item>, start: int, end: int, block_size: int) -> int
    decreases s.len() - end,
{
    if end < s.len() && (end - start + 1) * 12 + item_names(s.subrange(start, end)).len()
        + s[end].name.len() <= block_size {
        fit_end(s, start, end + 1, block_size)
    } else {
        end
    }
}

/// What fits lies between where it is looked for and the end.
pub proof fn fit_end_bounds(s: Seq<Item>, start: int, end: int, block_size: int)
    requires
        0 <= start <= end <= s.len(),
    ensures
        end <= fit_end(s, start, end, block_size) <= s.len(),
        fit_end(s, start, end, block_size) > end ==> {
            let f = fit_end(s, start, end, block_size);
            (f - start) * 12 + item_names(s.subrange(start, f)).len() <= block_size
        },
    decreases s.len() - end,
{
    if end < s.len() && (end - start + 1) * 12 + item_names(s.subrange(start, end)).len()
        + s[end].name.len() <= block_size {
        fit_end_bounds(s, start, end + 1, block_size);
        let t = s.subrange(start, end + 1);
        assert(t.drop_last() =~= s.subrange(start, end));
        assert(t.last() == s[end]);
    }
}

/// The blocks with the entries from `start` on, where every entry fits into
/// a block. All but the last are filled up with zeros.
pub open spec fn packed_items(s: Seq<Item>, start: int, block_size: int) -> Option<Seq<u8>>
    decreases s.len() - start,
    when 0 <= start <= s.len()
    via packed_items_ends
{
    let end = fit_end(s, start, start, block_size);
    if start == s.len() {
        Some(Seq::empty())
    } else if end <= start {
        None
    } else {
        let block = items_block(s.subrange(start, end));
        if end == s.len() {
            Some(block)
        } else {
            match packed_items(s, end, block_size) {
                None => None,
                Some(rest) => Some(block + zeros(block_size - block.len()) + rest),
            }
        }
    }
}

#[via_fn]
proof fn packed_items_ends(s: Seq<Item>, start: int, block_size: int) {
    if 0 <= start <= s.len() {
        fit_end_bounds(s, start, start, block_size);
    }
}

/// The content of a directory; nothing where an entry does not fit into a
/// block.
pub open spec fn directory_content(n: NodeView, block_size: int) -> Seq<u8> {
    match packed_items(items_of(n), 0, block_size) {
        None => Seq::empty(),
        Some(b) => b,
    }
}

proof fn item_heads_len(s: Seq<Item>, first: int)
    ensures
        item_heads(s, first).len() == s.len() * 12,
    decreases s.len(),
{
    if s.len() > 0 {
        item_heads_len(s.drop_last(), first);
    }
}

fn item_child(node: &Node, k: u128) -> (c: &Node)
    requires
        2 <= k < items_of(node@).len(),
    ensures
        items_of(node@)[k as int] == (Item {
            nid: c@.nid,
            name: encode_utf8(c@.name),
            kind: if c@.is_dir() {
                2
            } else {
                1
            },
        }),
{
    proof {
        children_seen(*node);
    }
    let n = node.children.len();
    assert(k - 2 < n);
    let i = (k - 2) as usize;
    assert(i == k - 2);
    assert(node@.children[k - 2] == node.children@[i as int]@);
    &node.children[i]
}

fn item_nid(node: &Node, k: u128) -> (r: u64)
    requires
        k < items_of(node@).len(),
    ensures
        r == items_of(node@)[k as int].nid,
{
    if k == 0 {
        node.nid
    } else if k == 1 {
        node.parent_nid
    } else {
        item_child(node, k).nid
    }
}

fn item_kind(node: &Node, k: u128) -> (r: u8)
    requires
        k < items_of(node@).len(),
    ensures
        r == items_of(node@)[k as int].kind,
{
    if k < 2 {
        2
    } else {
        if item_child(node, k).is_dir() {
            2
        } else {
            1
        }
    }
}

fn item_name(node: &Node, k: u128) -> (r: &[u8])
    requires
        k < items_of(node@).len(),
    ensures
        r@ == items_of(node@)[k as int].name,
{
    if k == 0 {
        ".".as_bytes()
    } else if k == 1 {
        "..".as_bytes()
    } else {
        item_child(node, k).name.as_str().as_bytes()
    }
}

fn find_fit(node: &Node, n: u128, start: u128, block_size: usize) -> (end: u128)
    requires
        n == items_of(node@).len(),
        start < n <= u64::MAX + 2,
        block_size <= 65536,
    ensures
        end == fit_end(items_of(node@), start as int, start as int, block_size as int),
        start <= end <= n,
        end - start <= block_size,
{
    let ghost s = items_of(node@);
    let mut end = start;
    let mut names: usize = 0;
    assert(s.subrange(start as int, start as int) =~= Seq::empty());
    while end < n
        invariant
            n == s.len(),
            s == items_of(node@),
            start <= end <= n <= u64::MAX + 2,
            block_size <= 65536,
            names == item_names(s.subrange(start as int, end as int)).len(),
            (end - start) * 12 + names <= block_size,
            fit_end(s, start as int, start as int, block_size as int) == fit_end(
                s,
                start as int,
                end as int,
                block_size as int,
            ),
        decreases n - end,
    {
        let len = item_name(node, end).len();
        let used = (end - start + 1) as usize * 12 + names;
        if used > block_size || len > block_size - used {
            return end;
        }
        proof {
            let t = s.subrange(start as int, end + 1);
            assert(t.drop_last() =~= s.subrange(start as int, end as int));
            assert(t.last() == s[end as int]);
        }
        names += len;
        end += 1;
    }
    end
}

fn write_items(node: &Node, n: u128, start: u128, end: u128, out: &mut Vec<u8>)
    requires
        n == items_of(node@).len(),
        start <= end <= n <= u64::MAX + 2,
        end - start <= 65536,
        (end - start) * 12 + item_names(
            items_of(node@).subrange(start as int, end as int),
        ).len() <= 65536,
    ensures
        final(out)@ == old(out)@ + items_block(
            items_of(node@).subrange(start as int, end as int),
        ),
{
    let ghost s = items_of(node@);
    let ghost part = s.subrange(start as int, end as int);
    let first = (end - start) as usize * 12;
    let mut names: Vec<u8> = Vec::new();
    let ghost before = out@;
    let mut k = start;
    assert(part.take(0) =~= Seq::empty());
    assert(out@ =~= before + item_heads(part.take(0), first as int));
    while k < end
        invariant
            n == s.len(),
            s == items_of(node@),
            start <= k <= end <= n <= u64::MAX + 2,
            end - start <= 65536,
            part == s.subrange(start as int, end as int),
            first == (end - start) * 12,
            first + item_names(part).len() <= 65536,
            names@ == item_names(part.take(k - start)),
            out@ == before + item_heads(part.take(k - start), first as int),
        decreases end - k,
    {
        proof {
            let t = part.take(k - start + 1);
            assert(t.drop_last() =~= part.take(k - start));
            assert(t.last() == s[k as int]);
            item_names_grow(part, k - start);
        }
        let at = first + names.len();
        push64(out, item_nid(node, k));
        push16(out, at as u16);
        out.push(item_kind(node, k));
        out.push(0);
        proof {
            assert(out@ =~= before + item_heads(part.take(k - start + 1), first as int));
        }
        let name = item_name(node, k);
        push_bytes(&mut names, name);
        k += 1;
    }
    assert(part.take(k - start) =~= part);
    push_bytes(out, &names);
    assert(out@ =~= before + items_block(part));
}

proof fn item_names_grow(s: Seq<Item>, i: int)
    requires
        0 <= i <= s.len(),
    ensures
        item_names(s.take(i)).len() <= item_names(s).len(),
    decreases s.len(),
{
    if i == s.len() {
        assert(s.take(i) =~= s);
    } else {
        assert(s.drop_last().take(i) =~= s.take(i));
        item_names_grow(s.drop_last(), i);
    }
}

/// The content of a directory; nothing where an entry does not fit into a
/// block.
pub fn directory_bytes(node: &Node, block_size: usize) -> (out: Vec<u8>)
    requires
        block_size <= 65536,
    ensures
        out@ == directory_content(node@, block_size as int),
{
    let ghost s = items_of(node@);
    let ghost bs = block_size as int;
    let n: u128 = node.children.len() as u128 + 2;
    proof {
        children_seen(*node);
    }
    let mut out: Vec<u8> = Vec::new();
    let mut start: u128 = 0;
    proof {
        if let Some(b) = packed_items(s, 0, bs) {
            assert(out@ + b =~= b);
        }
    }
    while start < n
        invariant
            s == items_of(node@),
            bs == block_size as int,
            n == s.len(),
            start <= n <= u64::MAX + 2,
            block_size <= 65536,
            match packed_items(s, 0, bs) {
                None => packed_items(s, start as int, bs) is None,
                Some(b) => packed_items(s, start as int, bs) is Some && b == out@ + packed_items(
                    s,
                    start as int,
                    bs,
                )->Some_0,
            },
        decreases n - start,
    {
        let end = find_fit(node, n, start, block_size);
        proof {
            fit_end_bounds(s, start as int, start as int, bs);
        }
        if end == start {
            return Vec::new();
        }
        let ghost before = out@;
        let ghost block = items_block(s.subrange(start as int, end as int));
        proof {
            item_heads_len(s.subrange(start as int, end as int), (end - start) * 12);
        }
        if end == n {
            write_items(node, n, start, end, &mut out);
            proof {
                assert(packed_items(s, end as int, bs) == Some(Seq::<u8>::empty()));
                assert(out@ + Seq::<u8>::empty() =~= out@);
            }
        } else {
            let mut b: Vec<u8> = Vec::new();
            write_items(node, n, start, end, &mut b);
            assert(b@ =~= block);
            pad_to(&mut b, block_size);
            push_bytes(&mut out, &b);
            proof {
                match packed_items(s, end as int, bs) {
                    None => {},
                    Some(rest) => {
                        assert(before + (block + zeros(bs - block.len()) + rest) =~= out@ + rest);
                    },
                }
            }
        }
        start = end;
    }
    proof {
        assert(packed_items(s, start as int, bs) == Some(Seq::<u8>::empty()));
        assert(out@ + Seq::<u8>::empty() =~= out@);
    }
    out
}

} // verus!
