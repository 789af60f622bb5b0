//! Edits of an EROFS image in its place: every byte that an edit does not
//! touch stays, and what it wrote reads back.
use super::erofs_laws::bodies_read_back;
use super::layout::directory_content;
use super::node::{NodeView, PayloadView};
use super::overlay::{
    all_settled, all_walked, appended, appended_content, area_count, arranged_tree, content_step,
    directory_step, empty_tail, fresh_number, inode_body, names_before, names_of, overlay_plan,
    overlay_tail, owner_step, placed_content, settled_child, super_patches, walk_step, walked,
    with_fresh, with_repatch, xattr_area_of, DirNamesView, TailView, Walk,
};
use super::patch::{node_patches, patched, patched_byte, untouched_bytes_stay, PatchView};
use super::source::content_of;
use crate::error::Fault;
use crate::fs::erofs::inode::inode_offset;
use crate::fs::erofs::Superblock;
use crate::math::{ceil_div, ceil_div_covers};
use crate::text::sorted_texts;
use vstd::prelude::*;

verus! {

// ---------------------------------------------------------------------
// The bytes that an edit touches
// ---------------------------------------------------------------------
/// Whether the names in a directory changed.
pub open spec fn names_changed(before: Seq<DirNamesView>, n: NodeView) -> bool {
    n.is_dir() && names_before(before, n.nid) != Some(sorted_texts(names_of(n.children)))
}

/// Whether an edit writes to the inode of a node that was there before. The
/// inodes `fresh` are new.
pub open spec fn is_edited(before: Seq<DirNamesView>, fresh: Seq<u64>, n: NodeView) -> bool {
    &&& n.nid != 0
    &&& names_changed(before, n) || (!fresh.contains(n.nid) && (n.content_changed || n.modified))
}

/// A byte of an inode that an edit of the tree writes to.
pub open spec fn edited_byte(
    sb: Superblock,
    before: Seq<DirNamesView>,
    fresh: Seq<u64>,
    n: NodeView,
    p: int,
) -> bool
    decreases n,
{
    ||| is_edited(before, fresh, n) && inode_offset(sb, n.nid) <= p < inode_offset(sb, n.nid) + 64
    ||| exists|i: int|
        0 <= i < n.children.len() && edited_byte(sb, before, fresh, #[trigger] n.children[i], p)
}

/// A byte of the superblock that an edit writes to: the checksum, the
/// compatible features, the number of inodes and that of blocks.
pub open spec fn super_byte(p: int) -> bool {
    1028 <= p < 1036 || 1040 <= p < 1048 || 1060 <= p < 1064
}

/// Where the bytes behind the end of the image start.
pub open spec fn tail_start(sb: Superblock, d: Seq<u8>) -> int {
    ceil_div(d.len() as int, sb.block_size as int) * sb.block_size
}

/// The tree of an edit with all new files settled, and the tail with them.
pub open spec fn settled_tree(sb: Superblock, d: Seq<u8>, root: NodeView) -> Result<
    (NodeView, TailView),
    Fault,
> {
    let t = arranged_tree(root);
    match all_settled(empty_tail(tail_start(sb, d)), sb, d, t.children, t.nid) {
        Err(e) => Err(e),
        Ok((children, c)) => Ok((NodeView { children, ..t }, c)),
    }
}

/// A byte of the image that an edit writes to.
pub open spec fn touched_byte(
    sb: Superblock,
    d: Seq<u8>,
    root: NodeView,
    before: Seq<DirNamesView>,
    p: int,
) -> bool {
    settled_tree(sb, d, root) matches Ok((n, c)) && {
        ||| super_byte(p)
        ||| edited_byte(sb, before, c.rewritten, n, p)
    }
}

// ---------------------------------------------------------------------
// How tails grow
// ---------------------------------------------------------------------
/// The tail `t` is the tail `c` with more in it.
pub open spec fn grew(c: TailView, t: TailView) -> bool {
    &&& c.patches.len() <= t.patches.len()
    &&& forall|k: int| 0 <= k < c.patches.len() ==> #[trigger] t.patches[k] == c.patches[k]
    &&& c.tail.len() <= t.tail.len()
    &&& forall|k: int| 0 <= k < c.tail.len() ==> #[trigger] t.tail[k] == c.tail[k]
    &&& t.cursor - c.cursor == t.tail.len() - c.tail.len()
    &&& c.rewritten.len() <= t.rewritten.len()
    &&& forall|k: int| 0 <= k < c.rewritten.len() ==> #[trigger] t.rewritten[k] == c.rewritten[k]
}

/// Two steps of growth are one.
pub proof fn growth_adds_up(a: TailView, b: TailView, c: TailView)
    requires
        grew(a, b),
        grew(b, c),
    ensures
        grew(a, c),
{
    assert forall|k: int| 0 <= k < a.patches.len() implies #[trigger] c.patches[k]
        == a.patches[k] by {
        assert(b.patches[k] == a.patches[k]);
    }
    assert forall|k: int| 0 <= k < a.tail.len() implies #[trigger] c.tail[k] == a.tail[k] by {
        assert(b.tail[k] == a.tail[k]);
    }
    assert forall|k: int| 0 <= k < a.rewritten.len() implies #[trigger] c.rewritten[k]
        == a.rewritten[k] by {
        assert(b.rewritten[k] == a.rewritten[k]);
    }
}

/// Appended content makes a tail grow by whole blocks.
pub proof fn appending_grows(c: TailView, block_size: int, data: Seq<u8>)
    requires
        0 < block_size,
        appended(c, block_size, data) is Ok,
    ensures
        ({
            let (t, at) = appended(c, block_size, data)->Ok_0;
            &&& grew(c, t)
            &&& t.patches == c.patches
            &&& t.rewritten == c.rewritten
            &&& at == c.cursor
            &&& t.tail.subrange(c.tail.len() as int, (c.tail.len() + data.len()) as int) == data
            &&& (t.cursor - c.cursor) % block_size == 0
        }),
{
    ceil_div_covers(data.len() as int, block_size);
    let room = ceil_div(data.len() as int, block_size) * block_size;
    let (t, _) = appended(c, block_size, data)->Ok_0;
    assert(t.tail.len() == c.tail.len() + room);
    assert(t.tail.subrange(c.tail.len() as int, (c.tail.len() + data.len()) as int) =~= data);
    vstd::arithmetic::div_mod::lemma_mod_multiples_basic(
        ceil_div(data.len() as int, block_size),
        block_size,
    );
}

/// The content of a node makes a tail grow by whole blocks.
pub proof fn placing_grows(c: TailView, sb: Superblock, d: Seq<u8>, n: NodeView)
    requires
        0 < sb.block_size,
        placed_content(c, sb, d, n) is Ok,
    ensures
        ({
            let t = placed_content(c, sb, d, n)->Ok_0.0;
            &&& grew(c, t)
            &&& t.patches == c.patches
            &&& t.rewritten == c.rewritten
            &&& (t.cursor - c.cursor) % (sb.block_size as int) == 0
        }),
{
    let bs = sb.block_size as int;
    assert(0int % bs == 0);
    if let PayloadView::Memory(data) = n.payload {
        if data.len() > 0 {
            appending_grows(c, bs, data);
        }
    } else if n.original_nid == 0 {
        if n.data().len() > 0 {
            appending_grows(c, bs, n.data());
        }
    } else if n.layout != 0 {
        let data = content_of(sb, d, n.original_nid)->Ok_0;
        if data.len() > 0 {
            appending_grows(c, bs, data);
        }
    }
}

// ---------------------------------------------------------------------
// New files
// ---------------------------------------------------------------------
/// The inode of a new file, with its attributes.
pub open spec fn fresh_bytes(n: NodeView, nid: u64, size: u32, raw: u32, area: Seq<u8>) -> Seq<u8> {
    inode_body(NodeView { nid, ..n }, 0, area_count(area), size, raw) + area
}

/// What a fresh inode adds to a tail: itself, behind everything else.
pub proof fn fresh_inodes_grow(
    c: TailView,
    sb: Superblock,
    n: NodeView,
    size: u32,
    raw: u32,
    area: Seq<u8>,
)
    requires
        0 < sb.block_size,
        with_fresh(c, sb, n, size, raw, area) is Ok,
    ensures
        ({
            let (t, nid) = with_fresh(c, sb, n, size, raw, area)->Ok_0;
            let x = fresh_bytes(n, nid, size, raw, area);
            let o = c.tail.len() as int;
            &&& grew(c, t)
            &&& t.patches == c.patches
            &&& t.rewritten == c.rewritten.push(nid)
            &&& nid == fresh_number(sb, c.cursor)
            &&& (t.cursor - c.cursor) % (sb.block_size as int) == 0
            &&& t.cursor > c.cursor
            &&& x.len() == n.body() + area.len()
            &&& o + x.len() <= t.tail.len()
            &&& t.tail.subrange(o, o + x.len()) == x
        }),
{
    let nid = fresh_number(sb, c.cursor);
    bodies_read_back(NodeView { nid, ..n }, 0, area_count(area), size, raw);
    let x = fresh_bytes(n, nid, size, raw, area);
    appending_grows(c, sb.block_size as int, x);
    ceil_div_covers(x.len() as int, sb.block_size as int);
}

proof fn settling_one_only_appends(
    c: TailView,
    sb: Superblock,
    d: Seq<u8>,
    n: NodeView,
    parent: u64,
)
    requires
        0 < sb.block_size,
        settled_child(c, sb, d, n, parent) is Ok,
    ensures
        ({
            let (m, t) = settled_child(c, sb, d, n, parent)->Ok_0;
            grew(c, t) && t.patches == c.patches
        }),
{
    if n.nid == 0 {
        let area = if n.original_nid == 0 {
            Seq::empty()
        } else {
            xattr_area_of(sb, d, n.original_nid)->Ok_0
        };
        placing_grows(c, sb, d, n);
        let (c1, raw, size) = placed_content(c, sb, d, n)->Ok_0;
        fresh_inodes_grow(c1, sb, n, size as u32, raw, area);
        let (c2, nid) = with_fresh(c1, sb, n, size as u32, raw, area)->Ok_0;
        growth_adds_up(c, c1, c2);
        let (m, t) = settled_child(c, sb, d, n, parent)->Ok_0;
        assert(grew(c2, t));
        growth_adds_up(c, c2, t);
    }
}

/// New files only make the tail grow: nothing of the image is patched for
/// them.
proof fn settling_only_appends(
    c: TailView,
    sb: Superblock,
    d: Seq<u8>,
    s: Seq<NodeView>,
    parent: u64,
)
    requires
        0 < sb.block_size,
        all_settled(c, sb, d, s, parent) is Ok,
    ensures
        ({
            let t = all_settled(c, sb, d, s, parent)->Ok_0.1;
            grew(c, t) && t.patches == c.patches
        }),
    decreases s,
{
    if s.len() > 0 {
        let front = s.subrange(0, s.len() - 1);
        let n = s[s.len() - 1];
        let (done, c1) = all_settled(c, sb, d, front, parent)->Ok_0;
        settling_only_appends(c, sb, d, front, parent);
        let (m, c2) = settled_child(c1, sb, d, n, parent)->Ok_0;
        settling_one_only_appends(c1, sb, d, n, parent);
        let (children, c3) = all_settled(c2, sb, d, n.children, m.nid)->Ok_0;
        settling_only_appends(c2, sb, d, n.children, m.nid);
        growth_adds_up(c, c1, c2);
        growth_adds_up(c, c2, c3);
    }
}

// ---------------------------------------------------------------------
// Files that were there
// ---------------------------------------------------------------------
/// The inodes `fresh` are among those written whole.
pub open spec fn knows(c: TailView, fresh: Seq<u64>) -> bool {
    forall|k: int| 0 <= k < fresh.len() ==> c.rewritten.contains(#[trigger] fresh[k])
}

proof fn growth_knows(c: TailView, t: TailView, fresh: Seq<u64>)
    requires
        grew(c, t),
        knows(c, fresh),
    ensures
        knows(t, fresh),
{
    assert forall|k: int| 0 <= k < fresh.len() implies t.rewritten.contains(
        #[trigger] fresh[k],
    ) by {
        let i = choose|i: int| 0 <= i < c.rewritten.len() && c.rewritten[i] == fresh[k];
        assert(t.rewritten[i] == fresh[k]);
    }
}

/// An inode that is written again makes a tail grow by one patch.
pub proof fn repatching_grows(
    c: TailView,
    sb: Superblock,
    d: Seq<u8>,
    n: NodeView,
    size: u64,
    raw: u32,
)
    requires
        with_repatch(c, sb, d, n, size, raw) is Ok,
    ensures
        ({
            let t = with_repatch(c, sb, d, n, size, raw)->Ok_0;
            &&& grew(c, t)
            &&& t.patches.len() == c.patches.len() + 1
            &&& t.patches.last().at == inode_offset(sb, n.nid)
            &&& t.patches.last().data.len() <= 64
            &&& t.rewritten == c.rewritten.push(n.nid)
            &&& t.tail == c.tail
            &&& t.cursor == c.cursor
        }),
{
}

/// Every patch from the number `k` on lies in inodes of the tree that are
/// edited.
spec fn all_edits(
    sb: Superblock,
    before: Seq<DirNamesView>,
    fresh: Seq<u64>,
    c: TailView,
    k: int,
    n: NodeView,
) -> bool {
    forall|j: int, p: int|
        k <= j < c.patches.len() && (#[trigger] c.patches[j]).covers(p) ==> #[trigger] edited_byte(
            sb,
            before,
            fresh,
            n,
            p,
        )
}

/// The same for a list of trees.
spec fn all_edits_of(
    sb: Superblock,
    before: Seq<DirNamesView>,
    fresh: Seq<u64>,
    c: TailView,
    k: int,
    s: Seq<NodeView>,
) -> bool {
    forall|j: int, p: int|
        k <= j < c.patches.len() && (#[trigger] c.patches[j]).covers(p) ==> #[trigger] any_edited(
            sb,
            before,
            fresh,
            s,
            p,
        )
}

spec fn any_edited(
    sb: Superblock,
    before: Seq<DirNamesView>,
    fresh: Seq<u64>,
    s: Seq<NodeView>,
    p: int,
) -> bool {
    exists|i: int| 0 <= i < s.len() && edited_byte(sb, before, fresh, #[trigger] s[i], p)
}

/// A patch lies in the inode that starts at `at`.
pub open spec fn lies(w: PatchView, at: int) -> bool {
    at <= w.at && w.at + w.data.len() <= at + 64
}

/// What a step adds to a tail: patches of one inode.
spec fn one_inode(c: TailView, t: TailView, at: int) -> bool {
    &&& grew(c, t)
    &&& forall|j: int| c.patches.len() <= j < t.patches.len() ==> lies(#[trigger] t.patches[j], at)
}

proof fn content_steps_edit(c: TailView, sb: Superblock, d: Seq<u8>, n: NodeView)
    requires
        0 < sb.block_size,
        content_step(c, sb, d, n) is Ok,
    ensures
        one_inode(c, content_step(c, sb, d, n)->Ok_0, inode_offset(sb, n.nid)),
        content_step(c, sb, d, n)->Ok_0 != c ==> n.nid != 0 && n.content_changed
            && !c.rewritten.contains(n.nid),
{
    let t = content_step(c, sb, d, n)->Ok_0;
    if t != c {
        placing_grows(c, sb, d, n);
        let (c1, raw, size) = placed_content(c, sb, d, n)->Ok_0;
        repatching_grows(c1, sb, d, n, size, raw);
        growth_adds_up(c, c1, t);
        assert forall|j: int| c.patches.len() <= j < t.patches.len() implies lies(
            #[trigger] t.patches[j],
            inode_offset(sb, n.nid),
        ) by {
            assert(t.patches[j] == t.patches.last());
        }
    }
}

proof fn directory_steps_edit(
    c: TailView,
    sb: Superblock,
    d: Seq<u8>,
    before: Seq<DirNamesView>,
    n: NodeView,
)
    requires
        0 < sb.block_size,
        directory_step(c, sb, d, before, n) is Ok,
    ensures
        one_inode(c, directory_step(c, sb, d, before, n)->Ok_0, inode_offset(sb, n.nid)),
        directory_step(c, sb, d, before, n)->Ok_0 != c ==> n.nid != 0 && names_changed(before, n),
{
    let bs = sb.block_size as int;
    let t = directory_step(c, sb, d, before, n)->Ok_0;
    if t != c {
        let data = directory_content(n, bs);
        appending_grows(c, bs, data);
        let (c1, raw, size) = appended_content(c, sb, data)->Ok_0;
        repatching_grows(c1, sb, d, n, size, raw);
        growth_adds_up(c, c1, t);
        assert forall|j: int| c.patches.len() <= j < t.patches.len() implies lies(
            #[trigger] t.patches[j],
            inode_offset(sb, n.nid),
        ) by {
            assert(t.patches[j] == t.patches.last());
        }
    }
}

proof fn owners_lie(sb: Superblock, d: Seq<u8>, n: NodeView)
    requires
        node_patches(sb, d, n) is Ok,
    ensures
        forall|j: int|
            0 <= j < node_patches(sb, d, n)->Ok_0.len() ==> lies(
                #[trigger] node_patches(sb, d, n)->Ok_0[j],
                inode_offset(sb, n.nid),
            ),
{
}

proof fn owner_steps_edit(c: TailView, sb: Superblock, d: Seq<u8>, n: NodeView)
    requires
        owner_step(c, sb, d, n) is Ok,
    ensures
        one_inode(c, owner_step(c, sb, d, n)->Ok_0, inode_offset(sb, n.nid)),
        owner_step(c, sb, d, n)->Ok_0 != c ==> n.nid != 0 && n.modified && !c.rewritten.contains(
            n.nid,
        ),
{
    let t = owner_step(c, sb, d, n)->Ok_0;
    if t != c {
        owners_lie(sb, d, n);
        let w = node_patches(sb, d, n)->Ok_0;
        assert forall|j: int| c.patches.len() <= j < t.patches.len() implies lies(
            #[trigger] t.patches[j],
            inode_offset(sb, n.nid),
        ) by {
            assert(t.patches[j] == w[j - c.patches.len()]);
        }
    }
}

proof fn steps_edit(
    walk: Walk,
    c: TailView,
    sb: Superblock,
    d: Seq<u8>,
    before: Seq<DirNamesView>,
    fresh: Seq<u64>,
    n: NodeView,
)
    requires
        0 < sb.block_size,
        knows(c, fresh),
        walk_step(walk, c, sb, d, before, n) is Ok,
    ensures
        ({
            let t = walk_step(walk, c, sb, d, before, n)->Ok_0;
            &&& grew(c, t)
            &&& all_edits(sb, before, fresh, t, c.patches.len() as int, n)
        }),
{
    let t = walk_step(walk, c, sb, d, before, n)->Ok_0;
    let at = inode_offset(sb, n.nid);
    match walk {
        Walk::Content => content_steps_edit(c, sb, d, n),
        Walk::Directories => directory_steps_edit(c, sb, d, before, n),
        Walk::Owners => owner_steps_edit(c, sb, d, n),
    }
    assert(one_inode(c, t, at));
    assert(t != c ==> is_edited(before, fresh, n)) by {
        if fresh.contains(n.nid) {
            let k = choose|k: int| 0 <= k < fresh.len() && fresh[k] == n.nid;
            assert(c.rewritten.contains(fresh[k]));
        }
    }
    assert forall|j: int, p: int|
        c.patches.len() <= j < t.patches.len() && (#[trigger] t.patches[j]).covers(
            p,
        ) implies #[trigger] edited_byte(sb, before, fresh, n, p) by {
        assert(lies(t.patches[j], at));
    }
}

proof fn walks_edit(
    walk: Walk,
    c: TailView,
    sb: Superblock,
    d: Seq<u8>,
    before: Seq<DirNamesView>,
    fresh: Seq<u64>,
    n: NodeView,
)
    requires
        0 < sb.block_size,
        knows(c, fresh),
        walked(walk, c, sb, d, before, n) is Ok,
    ensures
        ({
            let t = walked(walk, c, sb, d, before, n)->Ok_0;
            &&& grew(c, t)
            &&& knows(t, fresh)
            &&& all_edits(sb, before, fresh, t, c.patches.len() as int, n)
        }),
    decreases n,
{
    let c1 = walk_step(walk, c, sb, d, before, n)->Ok_0;
    let t = walked(walk, c, sb, d, before, n)->Ok_0;
    steps_edit(walk, c, sb, d, before, fresh, n);
    growth_knows(c, c1, fresh);
    all_walks_edit(walk, c1, sb, d, before, fresh, n.children);
    growth_adds_up(c, c1, t);
    assert forall|j: int, p: int|
        c.patches.len() <= j < t.patches.len() && (#[trigger] t.patches[j]).covers(
            p,
        ) implies #[trigger] edited_byte(sb, before, fresh, n, p) by {
        if j < c1.patches.len() {
            assert(t.patches[j] == c1.patches[j]);
        } else {
            assert(any_edited(sb, before, fresh, n.children, p));
        }
    }
}

proof fn all_walks_edit(
    walk: Walk,
    c: TailView,
    sb: Superblock,
    d: Seq<u8>,
    before: Seq<DirNamesView>,
    fresh: Seq<u64>,
    s: Seq<NodeView>,
)
    requires
        0 < sb.block_size,
        knows(c, fresh),
        all_walked(walk, c, sb, d, before, s) is Ok,
    ensures
        ({
            let t = all_walked(walk, c, sb, d, before, s)->Ok_0;
            &&& grew(c, t)
            &&& knows(t, fresh)
            &&& all_edits_of(sb, before, fresh, t, c.patches.len() as int, s)
        }),
    decreases s,
{
    if s.len() > 0 {
        let front = s.subrange(0, s.len() - 1);
        let last = s[s.len() - 1];
        let c1 = all_walked(walk, c, sb, d, before, front)->Ok_0;
        let t = all_walked(walk, c, sb, d, before, s)->Ok_0;
        all_walks_edit(walk, c, sb, d, before, fresh, front);
        walks_edit(walk, c1, sb, d, before, fresh, last);
        growth_adds_up(c, c1, t);
        assert forall|j: int, p: int|
            c.patches.len() <= j < t.patches.len() && (#[trigger] t.patches[j]).covers(
                p,
            ) implies #[trigger] any_edited(sb, before, fresh, s, p) by {
            if j < c1.patches.len() {
                assert(t.patches[j] == c1.patches[j]);
                assert(any_edited(sb, before, fresh, front, p));
                let i = choose|i: int|
                    0 <= i < front.len() && edited_byte(sb, before, fresh, #[trigger] front[i], p);
                assert(s[i] == front[i]);
            } else {
                assert(edited_byte(sb, before, fresh, last, p));
            }
        }
    }
}

// ---------------------------------------------------------------------
// The law of the rest
// ---------------------------------------------------------------------
/// Every patch of a tail lies in edited inodes.
spec fn in_inodes(
    sb: Superblock,
    before: Seq<DirNamesView>,
    fresh: Seq<u64>,
    n: NodeView,
    c: TailView,
) -> bool {
    forall|j: int, p: int|
        0 <= j < c.patches.len() && #[trigger] c.patches[j].covers(p) ==> edited_byte(
            sb,
            before,
            fresh,
            n,
            p,
        )
}

proof fn walks_stay_in_inodes(
    walk: Walk,
    c: TailView,
    sb: Superblock,
    d: Seq<u8>,
    before: Seq<DirNamesView>,
    fresh: Seq<u64>,
    n: NodeView,
)
    requires
        0 < sb.block_size,
        knows(c, fresh),
        walked(walk, c, sb, d, before, n) is Ok,
        in_inodes(sb, before, fresh, n, c),
    ensures
        in_inodes(sb, before, fresh, n, walked(walk, c, sb, d, before, n)->Ok_0),
        knows(walked(walk, c, sb, d, before, n)->Ok_0, fresh),
        grew(c, walked(walk, c, sb, d, before, n)->Ok_0),
{
    let t = walked(walk, c, sb, d, before, n)->Ok_0;
    walks_edit(walk, c, sb, d, before, fresh, n);
    assert forall|j: int, p: int|
        0 <= j < t.patches.len() && #[trigger] t.patches[j].covers(p) implies edited_byte(
        sb,
        before,
        fresh,
        n,
        p,
    ) by {
        if j < c.patches.len() {
            assert(t.patches[j] == c.patches[j]);
        }
    }
}

/// The tail of an edit.
proof fn overlays_stay_in_inodes(
    sb: Superblock,
    d: Seq<u8>,
    root: NodeView,
    before: Seq<DirNamesView>,
)
    requires
        0 < sb.block_size,
        overlay_tail(sb, d, arranged_tree(root), before, tail_start(sb, d)) is Ok,
    ensures
        ({
            let (n, c) = settled_tree(sb, d, root)->Ok_0;
            let t = overlay_tail(sb, d, arranged_tree(root), before, tail_start(sb, d))->Ok_0;
            &&& in_inodes(sb, before, c.rewritten, n, t)
            &&& t.cursor == tail_start(sb, d) + t.tail.len()
        }),
{
    let start = tail_start(sb, d);
    let a = arranged_tree(root);
    let c0 = empty_tail(start);
    let (n, c1) = settled_tree(sb, d, root)->Ok_0;
    settling_only_appends(c0, sb, d, a.children, a.nid);
    let fresh = c1.rewritten;
    assert(in_inodes(sb, before, fresh, n, c1));
    let c2 = walked(Walk::Content, c1, sb, d, before, n)->Ok_0;
    walks_stay_in_inodes(Walk::Content, c1, sb, d, before, fresh, n);
    let c3 = walked(Walk::Directories, c2, sb, d, before, n)->Ok_0;
    walks_stay_in_inodes(Walk::Directories, c2, sb, d, before, fresh, n);
    walks_stay_in_inodes(Walk::Owners, c3, sb, d, before, fresh, n);
}

/// The tail of an edit ends where its content ends.
pub proof fn tails_only_grow(
    sb: Superblock,
    d: Seq<u8>,
    root: NodeView,
    before: Seq<DirNamesView>,
)
    requires
        0 < sb.block_size,
        overlay_tail(sb, d, arranged_tree(root), before, tail_start(sb, d)) is Ok,
    ensures
        ({
            let t = overlay_tail(sb, d, arranged_tree(root), before, tail_start(sb, d))->Ok_0;
            t.cursor == tail_start(sb, d) + t.tail.len()
        }),
{
    overlays_stay_in_inodes(sb, d, root, before);
}

/// The patches of a plan leave a byte alone that none of its inodes, its
/// fields of the superblock and its tail covers.
pub proof fn plans_spare(
    d: Seq<u8>,
    body: Seq<PatchView>,
    sb: Superblock,
    inodes: u64,
    blocks: u32,
    start: int,
    tail: Seq<u8>,
    p: int,
)
    requires
        0 <= p < d.len() <= start,
        !super_byte(p),
        forall|k: int| 0 <= k < body.len() ==> !(#[trigger] body[k]).covers(p),
    ensures
        patched_byte(
            d,
            body + super_patches(sb, inodes, blocks) + seq![PatchView { at: start, data: tail }],
            p,
        ) == d[p],
{
    let sp = super_patches(sb, inodes, blocks);
    let patches = body + sp + seq![PatchView { at: start, data: tail }];
    assert forall|k: int| 0 <= k < patches.len() implies !(#[trigger] patches[k]).covers(p) by {
        if k < body.len() {
            assert(patches[k] == body[k]);
        } else if k < body.len() + 4 {
            assert(patches[k] == sp[k - body.len()]);
        }
    }
    untouched_bytes_stay(d, patches, p);
}

/// An edit in place keeps every byte that it does not touch: all but four
/// fields of the superblock and the inodes of edited files and directories.
/// New inodes and new content stand behind the end of the image.
pub proof fn overlays_keep_the_rest(
    sb: Superblock,
    d: Seq<u8>,
    root: NodeView,
    before: Seq<DirNamesView>,
    p: int,
)
    requires
        0 < sb.block_size,
        overlay_plan(sb, d, root, before) is Ok,
        0 <= p < d.len(),
        !touched_byte(sb, d, root, before, p),
    ensures
        ({
            let (patches, size) = overlay_plan(sb, d, root, before)->Ok_0;
            &&& d.len() <= size
            &&& patched(d, patches, size)[p] == d[p]
            &&& size == tail_start(sb, d) + overlay_tail(
                sb,
                d,
                arranged_tree(root),
                before,
                tail_start(sb, d),
            )->Ok_0.tail.len()
        }),
{
    let bs = sb.block_size as int;
    ceil_div_covers(d.len() as int, bs);
    overlays_stay_in_inodes(sb, d, root, before);
    let (n, c) = settled_tree(sb, d, root)->Ok_0;
    let t = overlay_tail(sb, d, arranged_tree(root), before, tail_start(sb, d))->Ok_0;
    assert forall|k: int| 0 <= k < t.patches.len() implies !(#[trigger] t.patches[k]).covers(p) by {
        assert(t.patches[k].covers(p) ==> touched_byte(sb, d, root, before, p));
    }
    plans_spare(
        d,
        t.patches,
        sb,
        (sb.inodes + t.new_inodes) as u64,
        (t.cursor / bs) as u32,
        tail_start(sb, d),
        t.tail,
        p,
    );
}

} // verus!
