//! Numbers and directories of a fresh ext4 image.
use super::node::{all_preorder, node_views, preorder, Node, NodeView};
use crate::buf::{bytes16, bytes32, pad_to, push16, push32, push_bytes, zeros};
use crate::error::{fail, Error, Fault};
use crate::math::{ceil_div, ceil_div_covers};
use vstd::prelude::*;
use vstd::utf8::encode_utf8;

verus! {

// ---------------------------------------------------------------------
// Numbers
// ---------------------------------------------------------------------
/// The root directory.
pub const ROOT_INODE: u64 = 2;

/// The first inode that is not reserved.
pub const FIRST_INODE: u64 = 11;

/// The tree with inode numbers: `nid` for the node itself, and from `next`
/// on for what is below it, each node in front of what is below it. With it
/// the number behind the last one.
pub open spec fn with_numbers(n: NodeView, nid: int, parent: int, next: int) -> (NodeView, int)
    decreases n,
{
    let below = all_with_numbers(n.children, nid, next);
    (
        NodeView { nid: nid as u64, parent_nid: parent as u64, children: below.0, ..n },
        below.1,
    )
}

/// The trees with inode numbers from `next` on.
pub open spec fn all_with_numbers(s: Seq<NodeView>, parent: int, next: int) -> (Seq<NodeView>, int)
    decreases s,
{
    if s.len() == 0 {
        (Seq::empty(), next)
    } else {
        let before = all_with_numbers(s.subrange(0, s.len() - 1), parent, next);
        let last = with_numbers(s[s.len() - 1], before.1, parent, before.1 + 1);
        (before.0.push(last.0), last.1)
    }
}

/// Numbers only grow.
pub proof fn numbers_grow(n: NodeView, nid: int, parent: int, next: int)
    ensures
        with_numbers(n, nid, parent, next).1 >= next,
    decreases n,
{
    all_numbers_grow(n.children, nid, next, n.children.len() as int);
    assert(n.children.take(n.children.len() as int) =~= n.children);
}

pub proof fn all_numbers_grow(s: Seq<NodeView>, parent: int, next: int, i: int)
    requires
        0 <= i <= s.len(),
    ensures
        next <= all_with_numbers(s.take(i), parent, next).1 <= all_with_numbers(
            s,
            parent,
            next,
        ).1,
        all_with_numbers(s.take(i), parent, next).0.len() == i,
    decreases s,
{
    if s.len() == 0 {
        assert(s.take(i) =~= s);
    } else {
        let front = s.subrange(0, s.len() - 1);
        let b = all_with_numbers(front, parent, next);
        numbers_grow(s[s.len() - 1], b.1, parent, b.1 + 1);
        if i < s.len() {
            all_numbers_grow(front, parent, next, i);
            assert(front.take(i) =~= s.take(i));
        } else {
            assert(s.take(i) =~= s);
            all_numbers_grow(front, parent, next, i - 1);
            assert(front.take(i - 1) =~= front);
        }
    }
}

/// The numbers follow each other, each node in front of what is below it.
pub proof fn numbers_in_order(n: NodeView, nid: int, parent: int, next: int)
    requires
        0 <= nid <= u64::MAX,
        0 <= next,
        with_numbers(n, nid, parent, next).1 <= u64::MAX,
    ensures
        ({
            let (t, end) = with_numbers(n, nid, parent, next);
            let list = preorder(t);
            &&& list.len() == 1 + end - next
            &&& list[0].nid == nid
            &&& forall|k: int| 1 <= k < list.len() ==> (#[trigger] list[k]).nid == next + k - 1
        }),
    decreases n,
{
    let (t, end) = with_numbers(n, nid, parent, next);
    all_numbers_in_order(n.children, nid, next);
    assert(t.children == all_with_numbers(n.children, nid, next).0);
}

pub proof fn all_numbers_in_order(s: Seq<NodeView>, parent: int, next: int)
    requires
        0 <= next,
        all_with_numbers(s, parent, next).1 <= u64::MAX,
    ensures
        ({
            let (t, end) = all_with_numbers(s, parent, next);
            let list = all_preorder(t);
            &&& next <= end
            &&& list.len() == end - next
            &&& forall|k: int| 0 <= k < list.len() ==> (#[trigger] list[k]).nid == next + k
        }),
    decreases s,
{
    let (t, end) = all_with_numbers(s, parent, next);
    if s.len() > 0 {
        let front = s.subrange(0, s.len() - 1);
        let b = all_with_numbers(front, parent, next);
        numbers_grow(s[s.len() - 1], b.1, parent, b.1 + 1);
        all_numbers_in_order(front, parent, next);
        numbers_in_order(s[s.len() - 1], b.1, parent, b.1 + 1);
        assert(t.subrange(0, t.len() - 1) =~= b.0);
        assert(t[t.len() - 1] == with_numbers(s[s.len() - 1], b.1, parent, b.1 + 1).0);
    }
}

/// Every node of a numbered tree has a number of its own: the root that of
/// the root directory, and the others those from the first that is not
/// reserved on, without a gap.
pub proof fn inodes_are_numbered(root: NodeView)
    requires
        inode_tree(root) is Ok,
    ensures
        ({
            let list = preorder(inode_tree(root)->Ok_0);
            &&& 1 <= list.len()
            &&& list.len() + FIRST_INODE - 1 <= 0x1_0000_0000
            &&& list[0].nid == ROOT_INODE
            &&& forall|k: int|
                1 <= k < list.len() ==> (#[trigger] list[k]).nid == FIRST_INODE + k - 1
        }),
{
    numbers_in_order(root, ROOT_INODE as int, ROOT_INODE as int, FIRST_INODE as int);
}

/// Gives the node and what is below it their inode numbers. The result is
/// the number behind the last one, where that fits.
fn assign(node: &mut Node, nid: u64, parent: u64, next: u64) -> (r: Option<u64>)
    requires
        next <= 0x1_0000_0000,
    ensures
        match r {
            Some(end) => {
                &&& with_numbers(old(node)@, nid as int, parent as int, next as int) == (
                    final(node)@,
                    end as int,
                )
                &&& end <= 0x1_0000_0000
            },
            None => with_numbers(old(node)@, nid as int, parent as int, next as int).1
                > 0x1_0000_0000,
        },
    decreases *old(node),
{
    let ghost first = node.children@;
    let ghost views = node_views(first);
    node.nid = nid;
    node.parent_nid = parent;
    let mut end = next;
    let n = node.children.len();
    let mut i: usize = 0;
    proof {
        super::node::children_seen(*old(node));
        assert(views.take(0) =~= Seq::empty());
        assert(node_views(node.children@.take(0)) =~= Seq::empty());
    }
    while i < n
        invariant
            i <= n == first.len(),
            node.children@.len() == n,
            views == node_views(first),
            views.len() == n,
            old(node).children@ == first,
            forall|k: int| i <= k < n ==> node.children@[k] == first[k],
            all_with_numbers(views.take(i as int), nid as int, next as int) == (
                node_views(node.children@.take(i as int)),
                end as int,
            ),
            end <= 0x1_0000_0000,
            *node == (Node { nid, parent_nid: parent, children: node.children, ..*old(node) }),
        decreases n - i,
    {
        proof {
            let t = views.take(i + 1);
            assert(t.subrange(0, t.len() - 1) =~= views.take(i as int));
            assert(t[t.len() - 1] == first[i as int]@);
            all_numbers_grow(views, nid as int, next as int, i + 1);
        }
        let ghost before = node.children@;
        if end >= 0x1_0000_0000 {
            proof {
                numbers_grow(first[i as int]@, end as int, nid as int, end + 1);
                assert(all_with_numbers(views, nid as int, next as int).1 > 0x1_0000_0000);
            }
            return None;
        }
        match assign(&mut node.children[i], end, nid, end + 1) {
            Some(x) => {
                end = x;
            },
            None => {
                return None;
            },
        }
        proof {
            assert(node.children@ =~= before.update(i as int, node.children@[i as int]));
            assert(node_views(node.children@.take(i + 1)) =~= node_views(
                before.take(i as int),
            ).push(node.children@[i as int]@));
        }
        i += 1;
    }
    proof {
        assert(views.take(i as int) =~= views);
        assert(node.children@.take(i as int) =~= node.children@);
    }
    Some(end)
}

/// The tree with the inode numbers of a fresh image.
pub open spec fn inode_tree(root: NodeView) -> Result<NodeView, Fault> {
    let (tree, end) = with_numbers(
        root,
        ROOT_INODE as int,
        ROOT_INODE as int,
        FIRST_INODE as int,
    );
    if end > 0x1_0000_0000 {
        fail("ext4 inode number overflow"@)
    } else {
        Ok(tree)
    }
}

/// Gives every node of a tree the inode number of a fresh image.
pub fn number_inodes(root: &mut Node) -> (r: Result<(), Error>)
    ensures
        match r {
            Ok(_) => inode_tree(old(root)@) == Ok::<NodeView, Fault>(final(root)@),
            Err(e) => inode_tree(old(root)@) == Err::<NodeView, Fault>(e@),
        },
{
    match assign(root, ROOT_INODE, ROOT_INODE, FIRST_INODE) {
        Some(_) => Ok(()),
        None => Err(Error::invalid("ext4 inode number overflow")),
    }
}

// ---------------------------------------------------------------------
// Directories
// ---------------------------------------------------------------------
/// The type of a file as a directory record has it.
pub open spec fn record_kind(mode: u16) -> u8 {
    if mode & 0xf000 == 0x4000 {
        2
    } else if mode & 0xf000 == 0xa000 {
        7
    } else if mode & 0xf000 == 0x2000 {
        5
    } else if mode & 0xf000 == 0x6000 {
        6
    } else if mode & 0xf000 == 0x1000 {
        3
    } else if mode & 0xf000 == 0xc000 {
        4
    } else {
        1
    }
}

/// The type of a file as a directory record has it.
pub fn file_type(mode: u16) -> (k: u8)
    ensures
        k == record_kind(mode),
{
    let kind = mode & 0xf000;
    if kind == 0x4000 {
        2
    } else if kind == 0xa000 {
        7
    } else if kind == 0x2000 {
        5
    } else if kind == 0x6000 {
        6
    } else if kind == 0x1000 {
        3
    } else if kind == 0xc000 {
        4
    } else {
        1
    }
}

/// What a directory record says.
pub struct Record {
    pub inode: u32,
    pub kind: u8,
    pub name: Seq<u8>,
}

/// The records of a directory: itself, its parent, its children.
pub open spec fn record_at(n: NodeView, i: int) -> Record {
    if i == 0 {
        Record { inode: n.nid as u32, kind: 2, name: seq![46u8] }
    } else if i == 1 {
        Record { inode: n.parent_nid as u32, kind: 2, name: seq![46u8, 46u8] }
    } else {
        let c = n.children[i - 2];
        Record { inode: c.nid as u32, kind: record_kind(c.mode), name: encode_utf8(c.name) }
    }
}

/// The records of a directory.
pub open spec fn records(n: NodeView) -> Seq<Record> {
    Seq::new(n.children.len() + 2, |i: int| record_at(n, i))
}

/// The least length of a record.
pub open spec fn record_room(r: Record) -> int {
    ceil_div(8 + r.name.len() as int, 4) * 4
}

/// The length of the record with the given index that starts at `at`: the
/// last one of a block reaches to the end of the block.
pub open spec fn record_length(s: Seq<Record>, i: int, at: int, block: int) -> int {
    let end = at + record_room(s[i]);
    if i + 1 >= s.len() {
        block - at % block
    } else if end % block != 0 && end % block + record_room(s[i + 1]) > block {
        record_room(s[i]) + (block - end % block)
    } else {
        record_room(s[i])
    }
}

/// A record of the given length.
pub open spec fn record_bytes(r: Record, length: int) -> Seq<u8> {
    bytes32(r.inode) + bytes16(length as u16) + seq![r.name.len() as u8, r.kind] + r.name + zeros(
        length - 8 - r.name.len(),
    )
}

/// The records from index `i` on, the first of them at `at`.
pub open spec fn records_from(s: Seq<Record>, i: int, at: int, block: int) -> Seq<u8>
    decreases s.len() - i,
{
    if i >= s.len() {
        Seq::empty()
    } else {
        let length = record_length(s, i, at, block);
        record_bytes(s[i], length) + records_from(s, i + 1, at + length, block)
    }
}

/// The content of a directory.
pub open spec fn directory_image(n: NodeView, block: int) -> Seq<u8> {
    records_from(records(n), 0, 0, block)
}

/// Every name fits into a directory record.
pub open spec fn names_fit(n: NodeView) -> bool {
    forall|i: int| 0 <= i < n.children.len() ==> encode_utf8((#[trigger] n.children[i]).name).len()
        <= 255
}

/// Every name of the tree fits into a directory record.
pub open spec fn all_names_fit(s: Seq<NodeView>) -> bool {
    forall|k: int| 0 <= k < s.len() ==> names_fit(#[trigger] s[k])
}

/// Whether every name in a list of nodes fits into a directory record.
pub fn check_names(list: &Vec<&Node>) -> (r: Result<(), Error>)
    ensures
        match r {
            Ok(_) => all_names_fit(super::node::ref_views(list@)),
            Err(e) => !all_names_fit(super::node::ref_views(list@)) && e@ == Fault::Invalid(
                "ext4 file name is too long"@,
            ),
        },
{
    let ghost s = super::node::ref_views(list@);
    let mut i: usize = 0;
    while i < list.len()
        invariant
            i <= list@.len() == s.len(),
            s == super::node::ref_views(list@),
            forall|k: int| 0 <= k < i ==> names_fit(#[trigger] s[k]),
        decreases list.len() - i,
    {
        let node = list[i];
        assert(s[i as int] == node@);
        let mut j: usize = 0;
        proof {
            super::node::children_seen(*node);
        }
        while j < node.children.len()
            invariant
                i < list@.len() == s.len(),
                s == super::node::ref_views(list@),
                s[i as int] == node@,
                j <= node.children@.len(),
                node@.children.len() == node.children@.len(),
                forall|k: int|
                    0 <= k < node.children@.len() ==> #[trigger] node@.children[k]
                        == node.children@[k]@,
                forall|k: int|
                    0 <= k < j ==> encode_utf8((#[trigger] node@.children[k]).name).len() <= 255,
            decreases node.children.len() - j,
        {
            assert(node@.children[j as int] == node.children@[j as int]@);
            if node.children[j].name.as_str().as_bytes().len() > 255 {
                assert(!names_fit(s[i as int]));
                return Err(Error::invalid("ext4 file name is too long"));
            }
            j += 1;
        }
        i += 1;
    }
    Ok(())
}

/// A record fits into what is left of its block.
pub proof fn record_fits(s: Seq<Record>, i: int, at: int, block: int)
    requires
        0 <= i < s.len(),
        0 <= at,
        1024 <= block <= 65536,
        at % 4 == 0,
        block % 4 == 0,
        s[i].name.len() <= 255,
        i + 1 < s.len() ==> s[i + 1].name.len() <= 255,
        at % block == 0 || at % block + record_room(s[i]) <= block,
    ensures
        8 + s[i].name.len() <= record_room(s[i]) <= record_length(s, i, at, block) <= block,
        record_room(s[i]) % 4 == 0,
        ({
            let next = at + record_length(s, i, at, block);
            &&& next % 4 == 0
            &&& i + 1 < s.len() ==> (next % block == 0 || next % block + record_room(s[i + 1])
                <= block)
            &&& i + 1 >= s.len() ==> next % block == 0
        }),
{
    ceil_div_covers(8 + s[i].name.len() as int, 4);
    if i + 1 < s.len() {
        ceil_div_covers(8 + s[i + 1].name.len() as int, 4);
    }
    let room = record_room(s[i]);
    vstd::arithmetic::div_mod::lemma_mod_bound(at, block);
    let k = block / 4;
    assert(block == 4 * k);
    vstd::arithmetic::div_mod::lemma_mod_mod(at, 4, k);
    assert((at % block) % 4 == 0);
    end_in_block(at, block, room);
    end_in_block(at, block, record_length(s, i, at, block));
}

/// Where bytes end that stay within a block.
proof fn end_in_block(at: int, block: int, n: int)
    requires
        0 <= at,
        0 < block,
        0 <= n,
        at % block + n <= block,
    ensures
        (at + n) % block == if at % block + n < block {
            at % block + n
        } else {
            0
        },
{
    let q = at / block;
    let m = at % block;
    vstd::arithmetic::div_mod::lemma_fundamental_div_mod(at, block);
    assert(q * block == block * q) by (nonlinear_arith);
    if m + n < block {
        vstd::arithmetic::div_mod::lemma_fundamental_div_mod_converse(at + n, block, q, m + n);
    } else {
        assert((q + 1) * block == block * q + block) by (nonlinear_arith);
        vstd::arithmetic::div_mod::lemma_fundamental_div_mod_converse(at + n, block, q + 1, 0);
    }
}

/// Adds one record.
fn push_record(out: &mut Vec<u8>, inode: u32, kind: u8, name: &[u8], length: usize)
    requires
        name@.len() <= 255,
        8 + name@.len() <= length,
        old(out)@.len() + length <= usize::MAX,
    ensures
        final(out)@ == old(out)@ + record_bytes(
            (Record { inode, kind, name: name@ }),
            length as int,
        ),
{
    let ghost before = out@;
    let start = out.len();
    push32(out, inode);
    push16(out, length as u16);
    out.push(name.len() as u8);
    out.push(kind);
    push_bytes(out, name);
    pad_to(out, start + length);
    assert(out@ =~= before + record_bytes((Record { inode, kind, name: name@ }), length as int));
}

fn room_of(len: usize) -> (n: usize)
    requires
        len <= 255,
    ensures
        n == ceil_div(8 + len as int, 4) * 4,
        n <= 264,
{
    (len + 11) / 4 * 4
}

/// The name and the type of a record.
fn record_of(node: &Node, i: usize) -> (r: (u32, u8, Vec<u8>))
    requires
        i < node.children@.len() + 2,
    ensures
        record_at(node@, i as int) == (Record { inode: r.0, kind: r.1, name: r.2@ }),
{
    proof {
        super::node::children_seen(*node);
    }
    let mut name: Vec<u8> = Vec::new();
    if i == 0 {
        name.push(46);
        assert(name@ =~= seq![46u8]);
        (node.nid as u32, 2, name)
    } else if i == 1 {
        name.push(46);
        name.push(46);
        assert(name@ =~= seq![46u8, 46u8]);
        (node.parent_nid as u32, 2, name)
    } else {
        let child = &node.children[i - 2];
        assert(node@.children[i - 2] == child@);
        push_bytes(&mut name, child.name.as_str().as_bytes());
        assert(name@ =~= encode_utf8(child@.name));
        (child.nid as u32, file_type(child.mode), name)
    }
}

proof fn records_length(s: Seq<Record>, i: int, at: int, block: int)
    requires
        0 <= i <= s.len(),
        0 <= at,
        1024 <= block <= 65536,
        block % 4 == 0,
        at % 4 == 0,
        forall|k: int| 0 <= k < s.len() ==> (#[trigger] s[k]).name.len() <= 255,
        i < s.len() ==> (at % block == 0 || at % block + record_room(s[i]) <= block),
        i == s.len() ==> at % block == 0,
    ensures
        (at + records_from(s, i, at, block).len()) % block == 0,
        records_from(s, i, at, block).len() >= s.len() - i,
    decreases s.len() - i,
{
    if i < s.len() {
        record_fits(s, i, at, block);
        let length = record_length(s, i, at, block);
        records_length(s, i + 1, at + length, block);
    }
}

/// A directory fills whole blocks, at least one.
pub proof fn directories_fill_blocks(n: NodeView, block: int)
    requires
        1024 <= block <= 65536,
        block % 4 == 0,
        names_fit(n),
    ensures
        directory_image(n, block).len() % block as nat == 0,
        directory_image(n, block).len() > 0,
{
    let s = records(n);
    assert forall|k: int| 0 <= k < s.len() implies (#[trigger] s[k]).name.len() <= 255 by {
        if k >= 2 {
            assert(encode_utf8(n.children[k - 2].name).len() <= 255);
        }
    }
    records_length(s, 0, 0, block);
}

/// The content of a directory, where memory can hold it.
pub fn directory(node: &Node, block: usize) -> (r: Option<Vec<u8>>)
    requires
        1024 <= block <= 65536,
        block % 4 == 0,
        names_fit(node@),
    ensures
        match r {
            Some(v) => v@ == directory_image(node@, block as int),
            None => directory_image(node@, block as int).len() > u32::MAX,
        },
{
    let ghost s = records(node@);
    let mut out: Vec<u8> = Vec::new();
    let n = node.children.len();
    let mut i: usize = 0;
    proof {
        super::node::children_seen(*node);
        assert forall|k: int| 0 <= k < s.len() implies (#[trigger] s[k]).name.len() <= 255 by {
            if k >= 2 {
                assert(encode_utf8(node@.children[k - 2].name).len() <= 255);
            }
        }
        assert(out@ + records_from(s, 0, 0, block as int) =~= records_from(
            s,
            0,
            0,
            block as int,
        ));
        ceil_div_covers(8 + s[0].name.len() as int, 4);
    }
    let mut more = true;
    while more
        invariant
            s == records(node@),
            s.len() == n + 2,
            n == node.children@.len(),
            1024 <= block <= 65536,
            block % 4 == 0,
            forall|k: int| 0 <= k < s.len() ==> (#[trigger] s[k]).name.len() <= 255,
            i <= s.len(),
            more ==> i < s.len(),
            !more ==> i == s.len(),
            out@.len() % 4 == 0,
            8 * i <= out@.len() <= u32::MAX,
            i < s.len() ==> (out@.len() as int % block as int == 0 || out@.len() as int
                % block as int + record_room(s[i as int]) <= block),
            out@ + records_from(s, i as int, out@.len() as int, block as int) == directory_image(
                node@,
                block as int,
            ),
        decreases s.len() - i,
    {
        let (inode, kind, name) = record_of(node, i);
        let ghost at = out@.len() as int;
        assert(s[i as int] == (Record { inode, kind, name: name@ }));
        proof {
            record_fits(s, i as int, at, block as int);
        }
        let room = room_of(name.len());
        let last = i > n;
        let start = out.len();
        let length: usize = if last {
            block - start % block
        } else {
            let (_inode, _kind, follower) = record_of(node, i + 1);
            assert(s[i + 1].name == follower@);
            let used = ((start as u64 + room as u64) % block as u64) as usize;
            if used != 0 && used + room_of(follower.len()) > block {
                room + (block - used)
            } else {
                room
            }
        };
        assert(length == record_length(s, i as int, at, block as int));
        if start as u64 + length as u64 > u32::MAX as u64 {
            return None;
        }
        let ghost before = out@;
        push_record(&mut out, inode, kind, &name, length);
        proof {
            let rest = records_from(s, i + 1, at + length, block as int);
            assert(before + (record_bytes(s[i as int], length as int) + rest) =~= out@ + rest);
            assert(out@.len() == at + length);
        }
        if last {
            more = false;
            i = i + 1;
        } else {
            i = i + 1;
        }
    }
    proof {
        assert(out@ + records_from(s, i as int, out@.len() as int, block as int) =~= out@);
    }
    Some(out)
}

} // verus!
