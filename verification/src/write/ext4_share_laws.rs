//! Files that share blocks: every block of a file is found again.
use super::blocks::{ranges_have_their_length, Volume};
use super::ext4_inode::{is_short_link, leaf_room, Extents};
use super::ext4_place::{
    file_block, is_blank, placed_node, placed_nodes, shared_file, with_block, Placed,
};
use super::ext4_space::{
    first_free, first_free_bounds, free_run, intact, known_block, runs, shared_block, stays_intact,
    taken, Sharing, SpaceView, MAX_RUN,
};
use super::ext4_space_laws::{
    clear, mark, placed_size, runs_are_sound, well_placed, within,
};
use super::extent_laws::short_extents;
use super::node::NodeView;
use super::read_back::sized;
use crate::error::Fault;
use crate::math::{ceil_div, ceil_div_covers, greatest, least};
use vstd::prelude::*;

verus! {

// ---------------------------------------------------------------------
// What is stored
// ---------------------------------------------------------------------
/// The block `b` was written with `data`.
pub open spec fn is_stored(shared: Seq<(Seq<u8>, u32)>, data: Seq<u8>, b: int) -> bool {
    exists|k: int| 0 <= k < shared.len() && (#[trigger] shared[k]).0 == data && shared[k].1 == b
}

/// An extent maps a block of a file.
pub open spec fn maps(e: (u32, u32, u32), logical: int) -> bool {
    e.0 <= logical < e.0 + e.2
}

/// Some extent maps a block of a file.
pub open spec fn covered(s: Extents, logical: int) -> bool {
    exists|i: int| 0 <= i < s.len() && maps(#[trigger] s[i], logical)
}

/// The extents map the first `upto` blocks of a file to blocks that were
/// written with them; what they leave out is blank.
#[verifier::opaque]
pub open spec fn recorded(
    shared: Seq<(Seq<u8>, u32)>,
    v: Volume,
    n: NodeView,
    block: int,
    s: Extents,
    upto: int,
) -> bool {
    &&& forall|logical: int|
        0 <= logical < upto ==> (#[trigger] file_block(v, n, block, logical)) is Ok && (covered(
            s,
            logical,
        ) || is_blank(file_block(v, n, block, logical)->Ok_0))
    &&& forall|i: int, logical: int|
        0 <= i < s.len() && #[trigger] maps(s[i], logical) ==> 0 <= logical < upto && is_stored(
            shared,
            file_block(v, n, block, logical)->Ok_0,
            s[i].1 + (logical - s[i].0),
        )
}

/// The second list is the first one with more behind it.
pub open spec fn extends(a: Seq<(Seq<u8>, u32)>, b: Seq<(Seq<u8>, u32)>) -> bool {
    &&& a.len() <= b.len()
    &&& forall|k: int| 0 <= k < a.len() ==> #[trigger] b[k] == a[k]
}

proof fn stored_stays(
    a: Seq<(Seq<u8>, u32)>,
    b: Seq<(Seq<u8>, u32)>,
    data: Seq<u8>,
    at: int,
)
    requires
        extends(a, b),
        is_stored(a, data, at),
    ensures
        is_stored(b, data, at),
{
    let k = choose|k: int| 0 <= k < a.len() && (#[trigger] a[k]).0 == data && a[k].1 == at;
    assert(b[k] == a[k]);
}

/// What is recorded stays recorded.
pub proof fn recorded_stays(
    a: Seq<(Seq<u8>, u32)>,
    b: Seq<(Seq<u8>, u32)>,
    v: Volume,
    n: NodeView,
    block: int,
    s: Extents,
    upto: int,
)
    requires
        extends(a, b),
        recorded(a, v, n, block, s, upto),
    ensures
        recorded(b, v, n, block, s, upto),
{
    reveal(recorded);
    assert forall|i: int, logical: int|
        0 <= i < s.len() && #[trigger] maps(s[i], logical) implies 0 <= logical < upto && is_stored(
        b,
        file_block(v, n, block, logical)->Ok_0,
        s[i].1 + (logical - s[i].0),
    ) by {
        stored_stays(
            a,
            b,
            file_block(v, n, block, logical)->Ok_0,
            s[i].1 + (logical - s[i].0),
        );
    }
}

proof fn covered_stays(s: Extents, logical: int, b: u32, other: int)
    requires
        covered(s, other),
        0 <= logical,
    ensures
        covered(with_block(s, logical, b), other),
{
    let i = choose|i: int| 0 <= i < s.len() && maps(#[trigger] s[i], other);
    let t = with_block(s, logical, b);
    if i < s.len() - 1 {
        assert(t[i] == s[i]);
    } else {
        assert(maps(t[i], other));
    }
}

/// One more block is recorded.
proof fn block_is_recorded(
    shared: Seq<(Seq<u8>, u32)>,
    v: Volume,
    n: NodeView,
    block: int,
    s: Extents,
    logical: int,
    b: u32,
    data: Seq<u8>,
)
    requires
        recorded(shared, v, n, block, s, logical),
        file_block(v, n, block, logical) == Ok::<Seq<u8>, Fault>(data),
        is_stored(shared, data, b as int),
        0 <= logical <= u32::MAX,
        short_extents(s),
    ensures
        recorded(shared, v, n, block, with_block(s, logical, b), logical + 1),
        short_extents(with_block(s, logical, b)),
{
    reveal(recorded);
    let t = with_block(s, logical, b);
    let last = t.len() - 1;
    assert(maps(t[last], logical));
    assert forall|other: int| 0 <= other < logical + 1 implies (#[trigger] file_block(
        v,
        n,
        block,
        other,
    )) is Ok && (covered(t, other) || is_blank(file_block(v, n, block, other)->Ok_0)) by {
        if other < logical {
            if covered(s, other) {
                covered_stays(s, logical, b, other);
            }
        }
    }
    assert forall|i: int, other: int|
        0 <= i < t.len() && #[trigger] maps(t[i], other) implies 0 <= other < logical + 1
        && is_stored(shared, file_block(v, n, block, other)->Ok_0, t[i].1 + (other - t[i].0)) by {
        if i < last {
            assert(t[i] == s[i]);
            assert(maps(s[i], other));
        } else if other != logical {
            assert(s.len() > 0 && maps(s[s.len() - 1], other));
        }
    }
    assert forall|i: int| 0 <= i < t.len() implies (#[trigger] t[i]).2 < 0x8000 by {
        if i < s.len() {
            assert(s[i].2 < 0x8000);
        }
    }
}

proof fn blank_is_recorded(
    shared: Seq<(Seq<u8>, u32)>,
    v: Volume,
    n: NodeView,
    block: int,
    s: Extents,
    logical: int,
)
    requires
        recorded(shared, v, n, block, s, logical),
        file_block(v, n, block, logical) matches Ok(data) && is_blank(data),
    ensures
        recorded(shared, v, n, block, s, logical + 1),
{
    reveal(recorded);
}

// ---------------------------------------------------------------------
// Taking blocks
// ---------------------------------------------------------------------
/// An image while files are placed: what was written is there, and what is
/// kept is not free.
pub open spec fn orderly(s: Sharing, block: int, kept: Seq<bool>) -> bool {
    &&& intact(s, block)
    &&& within(kept, s.space.used)
    &&& 0 <= s.space.next
    &&& s.space.used.len() <= u32::MAX
}

/// The blocks that were written since the first `from` lie between `low` and
/// `high` and are not kept.
pub open spec fn taken_between(
    shared: Seq<(Seq<u8>, u32)>,
    from: int,
    kept: Seq<bool>,
    low: int,
    high: int,
) -> bool {
    forall|k: int|
        from <= k < shared.len() ==> low <= (#[trigger] shared[k]).1 < high && clear(
            kept,
            shared[k].1 as int,
            1,
        )
}

/// What one step, or more of them, make of an image.
pub open spec fn went_on(s: Sharing, t: Sharing, block: int, kept: Seq<bool>) -> bool {
    &&& orderly(t, block, kept)
    &&& extends(s.shared, t.shared)
    &&& s.space.next <= t.space.next
    &&& t.space.used.len() == s.space.used.len()
    &&& taken_between(t.shared, s.shared.len() as int, kept, s.space.next, t.space.next)
}

proof fn steps_join(s: Sharing, t: Sharing, u: Sharing, block: int, kept: Seq<bool>)
    requires
        went_on(s, t, block, kept),
        went_on(t, u, block, kept),
    ensures
        went_on(s, u, block, kept),
{
    assert forall|k: int| 0 <= k < s.shared.len() implies #[trigger] u.shared[k] == s.shared[k] by {
        assert(t.shared[k] == s.shared[k]);
    }
    assert forall|k: int| s.shared.len() <= k < u.shared.len() implies s.space.next <= (
    #[trigger] u.shared[k]).1 < u.space.next && clear(kept, u.shared[k].1 as int, 1) by {
        if k < t.shared.len() {
            assert(u.shared[k] == t.shared[k]);
        }
    }
}

proof fn known_is_stored(shared: Seq<(Seq<u8>, u32)>, data: Seq<u8>)
    ensures
        known_block(shared, data) matches Some(b) ==> is_stored(shared, data, b as int),
    decreases shared.len(),
{
    if shared.len() > 0 {
        let front = shared.drop_last();
        known_is_stored(front, data);
        if let Some(b) = known_block(front, data) {
            let k = choose|k: int|
                0 <= k < front.len() && (#[trigger] front[k]).0 == data && front[k].1 == b;
            assert(shared[k] == front[k]);
        } else {
            assert(shared[shared.len() - 1] == shared.last());
        }
    }
}

proof fn block_is_stored(s: Sharing, data: Seq<u8>, fresh: bool, kept: Seq<bool>)
    requires
        orderly(s, data.len() as int, kept),
    ensures
        shared_block(s, data, fresh) matches Some((t, b)) ==> went_on(
            s,
            t,
            data.len() as int,
            kept,
        ) && is_stored(t.shared, data, b as int),
{
    if let Some((t, b)) = shared_block(s, data, fresh) {
        stays_intact(s, data, fresh);
        known_is_stored(s.shared, data);
        if t != s {
            let at = first_free(s.space.used, s.space.next);
            first_free_bounds(s.space.used, s.space.next);
            assert(t.shared[s.shared.len() as int] == (data, b));
            assert(clear(kept, b as int, 1));
            assert forall|k: int| s.shared.len() <= k < t.shared.len() implies s.space.next <= (
            #[trigger] t.shared[k]).1 < t.space.next && clear(kept, t.shared[k].1 as int, 1) by {
                assert(k == s.shared.len());
            }
        }
    }
}

proof fn file_block_length(v: Volume, n: NodeView, block: int, logical: int)
    requires
        sized(v),
        0 < block,
        0 <= logical < ceil_div(n.data_size as int, block),
    ensures
        file_block(v, n, block, logical) matches Ok(x) ==> x.len() == block,
        0 <= logical * block < n.data_size,
{
    ceil_div_covers(n.data_size as int, block);
    let c = ceil_div(n.data_size as int, block);
    assert(0 <= logical * block < n.data_size) by (nonlinear_arith)
        requires
            0 <= logical,
            logical + 1 <= c,
            c * block < n.data_size + block,
            0 < block,
    ;
    let len = least(block, n.data_size - logical * block);
    ranges_have_their_length(v, n, logical * block, len);
}

/// Placing a file that shares blocks records all of it.
pub proof fn shared_files_are_sound(
    s: Sharing,
    v: Volume,
    n: NodeView,
    block: int,
    got: Extents,
    logical: int,
    kept: Seq<bool>,
)
    requires
        sized(v),
        0 < block,
        orderly(s, block, kept),
        0 <= logical <= ceil_div(n.data_size as int, block) <= u32::MAX,
        recorded(s.shared, v, n, block, got, logical),
        short_extents(got),
    ensures
        shared_file(s, v, n, block, got, logical) matches Ok((t, all)) ==> {
            &&& went_on(s, t, block, kept)
            &&& recorded(t.shared, v, n, block, all, ceil_div(n.data_size as int, block))
            &&& short_extents(all)
        },
    decreases ceil_div(n.data_size as int, block) - logical,
{
    if logical < ceil_div(n.data_size as int, block) {
        if let Ok(data) = file_block(v, n, block, logical) {
            file_block_length(v, n, block, logical);
            let full = got.len() >= 4 * leaf_room(block);
            if is_blank(data) && !full {
                blank_is_recorded(s.shared, v, n, block, got, logical);
                shared_files_are_sound(s, v, n, block, got, logical + 1, kept);
            } else if let Some((t, b)) = shared_block(s, data, full) {
                block_is_stored(s, data, full, kept);
                recorded_stays(s.shared, t.shared, v, n, block, got, logical);
                block_is_recorded(t.shared, v, n, block, got, logical, b, data);
                let more = with_block(got, logical, b);
                shared_files_are_sound(t, v, n, block, more, logical + 1, kept);
                if let Ok((u, _)) = shared_file(t, v, n, block, more, logical + 1) {
                    steps_join(s, t, u, block, kept);
                }
            }
        }
    }
}

// ---------------------------------------------------------------------
// Nodes
// ---------------------------------------------------------------------
/// The placement of a node of an image with shared blocks.
pub open spec fn settled_node(
    shared: Seq<(Seq<u8>, u32)>,
    v: Volume,
    n: NodeView,
    p: Placed,
    block: int,
    kept: Seq<bool>,
    low: int,
    high: int,
) -> bool {
    &&& p.size == placed_size(n, block)
    &&& short_extents(p.extents)
    &&& low <= high
    &&& n.is_dir() ==> well_placed(n, p, block, kept, low, high)
    &&& !n.is_dir() && !is_short_link(n) ==> recorded(
        shared,
        v,
        n,
        block,
        p.extents,
        ceil_div(n.data_size as int, block),
    )
}

/// A block was taken for a file among the first `k` nodes.
pub open spec fn taken_for_a_file(
    s: Sharing,
    v: Volume,
    list: Seq<NodeView>,
    block: int,
    k: int,
    b: int,
) -> bool {
    exists|j: int|
        0 <= j < k && !(#[trigger] list[j]).is_dir() && mark(s, v, list, block, true, j) <= b < mark(
            s,
            v,
            list,
            block,
            true,
            j + 1,
        )
}

/// One node is placed.
proof fn node_is_settled(t: Sharing, v: Volume, n: NodeView, block: int, kept: Seq<bool>)
    requires
        sized(v),
        0 < block,
        orderly(t, block, kept),
        placed_node(t, v, n, block, true) is Ok,
    ensures
        ({
            let (u, p) = placed_node(t, v, n, block, true)->Ok_0;
            &&& went_on(t, u, block, kept)
            &&& settled_node(u.shared, v, n, p, block, kept, t.space.next, u.space.next)
            &&& n.is_dir() ==> u.shared == t.shared
        }),
{
    let (u, p) = placed_node(t, v, n, block, true)->Ok_0;
    let size = placed_size(n, block);
    ceil_div_covers(size, block);
    if n.is_dir() {
        runs_are_sound(t.space, Seq::empty(), 0, ceil_div(size, block), kept, t.space.next);
        runs_keep_what_is_used(t.space, Seq::empty(), 0, ceil_div(size, block));
        assert(intact(u, block));
    } else if !is_short_link(n) {
        assert(recorded(t.shared, v, n, block, Seq::empty(), 0)) by {
            reveal(recorded);
        }
        shared_files_are_sound(t, v, n, block, Seq::empty(), 0, kept);
    }
}

proof fn runs_keep_what_is_used(
    s: SpaceView,
    got: Extents,
    logical: int,
    left: int,
)
    ensures
        runs(s, got, logical, left) matches Some((t, _)) ==> within(
            s.used,
            t.used,
        ),
    decreases greatest(left, 0),
{
    if left > 0 {
        let at = first_free(s.used, s.next);
        let n = free_run(s.used, at, least(left, MAX_RUN as int));
        if at < s.used.len() && n > 0 {
            let t = SpaceView { used: taken(s.used, at, n), next: at + n };
            runs_keep_what_is_used(
                t,
                got.push((logical as u32, at as u32, n as u32)),
                logical + n,
                left - n,
            );
            if let Some((u, _)) = runs(s, got, logical, left) {
                assert forall|i: int| 0 <= i < s.used.len() && #[trigger] s.used[i] implies u.used[i] by {
                    assert(t.used[i]);
                }
            }
        }
    }
}

proof fn settled_stays(
    a: Seq<(Seq<u8>, u32)>,
    b: Seq<(Seq<u8>, u32)>,
    v: Volume,
    n: NodeView,
    p: Placed,
    block: int,
    kept: Seq<bool>,
    low: int,
    high: int,
)
    requires
        extends(a, b),
        settled_node(a, v, n, p, block, kept, low, high),
    ensures
        settled_node(b, v, n, p, block, kept, low, high),
{
    if !n.is_dir() && !is_short_link(n) {
        recorded_stays(a, b, v, n, block, p.extents, ceil_div(n.data_size as int, block));
    }
}

/// Nodes are placed one behind the other, and their blocks are known.
pub proof fn nodes_are_settled(
    s: Sharing,
    v: Volume,
    list: Seq<NodeView>,
    block: int,
    k: int,
    kept: Seq<bool>,
)
    requires
        sized(v),
        0 < block,
        orderly(s, block, kept),
        s.shared.len() == 0,
        0 <= k <= list.len(),
        placed_nodes(s, v, list, block, true, k) is Ok,
    ensures
        ({
            let (t, done) = placed_nodes(s, v, list, block, true, k)->Ok_0;
            &&& done.len() == k
            &&& orderly(t, block, kept)
            &&& t.space.used.len() == s.space.used.len()
            &&& s.space.next <= t.space.next
            &&& forall|j: int|
                0 <= j < k ==> {
                    &&& settled_node(
                        t.shared,
                        v,
                        list[j],
                        #[trigger] done[j],
                        block,
                        kept,
                        mark(s, v, list, block, true, j),
                        mark(s, v, list, block, true, j + 1),
                    )
                    &&& mark(s, v, list, block, true, j + 1) <= t.space.next
                    &&& s.space.next <= mark(s, v, list, block, true, j)
                }
            &&& forall|i: int|
                0 <= i < t.shared.len() ==> clear(kept, (#[trigger] t.shared[i]).1 as int, 1)
                    && taken_for_a_file(s, v, list, block, k, t.shared[i].1 as int)
        }),
    decreases k,
{
    if k > 0 {
        nodes_are_settled(s, v, list, block, k - 1, kept);
        let (t, done) = placed_nodes(s, v, list, block, true, k - 1)->Ok_0;
        let n = list[k - 1];
        let (u, p) = placed_node(t, v, n, block, true)->Ok_0;
        node_is_settled(t, v, n, block, kept);
        let more = done.push(p);
        assert(mark(s, v, list, block, true, k - 1) == t.space.next);
        assert(mark(s, v, list, block, true, k) == u.space.next);
        assert forall|j: int| 0 <= j < k implies {
            &&& settled_node(
                u.shared,
                v,
                list[j],
                #[trigger] more[j],
                block,
                kept,
                mark(s, v, list, block, true, j),
                mark(s, v, list, block, true, j + 1),
            )
            &&& mark(s, v, list, block, true, j + 1) <= u.space.next
            &&& s.space.next <= mark(s, v, list, block, true, j)
        } by {
            if j < k - 1 {
                assert(more[j] == done[j]);
                settled_stays(
                    t.shared,
                    u.shared,
                    v,
                    list[j],
                    done[j],
                    block,
                    kept,
                    mark(s, v, list, block, true, j),
                    mark(s, v, list, block, true, j + 1),
                );
            }
        }
        assert forall|i: int| 0 <= i < u.shared.len() implies clear(
            kept,
            (#[trigger] u.shared[i]).1 as int,
            1,
        ) && taken_for_a_file(s, v, list, block, k, u.shared[i].1 as int) by {
            let b = u.shared[i].1 as int;
            if i < t.shared.len() {
                assert(u.shared[i] == t.shared[i]);
                let j = choose|j: int|
                    0 <= j < k - 1 && !(#[trigger] list[j]).is_dir() && mark(
                        s,
                        v,
                        list,
                        block,
                        true,
                        j,
                    ) <= b < mark(s, v, list, block, true, j + 1);
                assert(!list[j].is_dir());
            } else {
                assert(!list[k - 1].is_dir());
            }
        }
    }
}

// ---------------------------------------------------------------------
// Holes and blocks that are stored once
// ---------------------------------------------------------------------
proof fn other_blocks_are_not_covered(s: Extents, logical: int, b: u32, other: int)
    requires
        0 <= logical <= u32::MAX,
        other != logical,
        short_extents(s),
        !covered(s, other),
    ensures
        !covered(with_block(s, logical, b), other),
        short_extents(with_block(s, logical, b)),
        s.len() <= with_block(s, logical, b).len(),
{
    let t = with_block(s, logical, b);
    if covered(t, other) {
        let i = choose|i: int| 0 <= i < t.len() && maps(#[trigger] t[i], other);
        if i < t.len() - 1 {
            assert(t[i] == s[i]);
        } else if t.len() == s.len() {
            assert(maps(s[s.len() - 1], other));
        }
    }
    assert forall|i: int| 0 <= i < t.len() implies (#[trigger] t[i]).2 < 0x8000 by {
        if i < s.len() {
            assert(s[i].2 < 0x8000);
        }
    }
}

/// A blank block of a file that shares blocks becomes a hole, as long as the
/// extent tree of the file has room for more extents.
pub proof fn blank_blocks_become_holes(
    s: Sharing,
    v: Volume,
    n: NodeView,
    block: int,
    got: Extents,
    logical: int,
    hole: int,
)
    requires
        0 <= logical,
        ceil_div(n.data_size as int, block) <= u32::MAX,
        short_extents(got),
        shared_file(s, v, n, block, got, logical) matches Ok((_, all)) && all.len() < 4
            * leaf_room(block),
        file_block(v, n, block, hole) matches Ok(data) && is_blank(data),
        !covered(got, hole),
    ensures
        shared_file(s, v, n, block, got, logical) matches Ok((_, all)) && got.len() <= all.len()
            && !covered(all, hole),
    decreases ceil_div(n.data_size as int, block) - logical,
{
    if logical < ceil_div(n.data_size as int, block) {
        let data = file_block(v, n, block, logical)->Ok_0;
        let full = got.len() >= 4 * leaf_room(block);
        extents_only_grow(s, v, n, block, got, logical);
        if is_blank(data) {
            blank_blocks_become_holes(s, v, n, block, got, logical + 1, hole);
        } else {
            let (t, b) = shared_block(s, data, full)->Some_0;
            other_blocks_are_not_covered(got, logical, b, hole);
            blank_blocks_become_holes(
                t,
                v,
                n,
                block,
                with_block(got, logical, b),
                logical + 1,
                hole,
            );
        }
    }
}

proof fn extents_only_grow(
    s: Sharing,
    v: Volume,
    n: NodeView,
    block: int,
    got: Extents,
    logical: int,
)
    ensures
        shared_file(s, v, n, block, got, logical) matches Ok((_, all)) ==> got.len() <= all.len(),
    decreases ceil_div(n.data_size as int, block) - logical,
{
    if logical < ceil_div(n.data_size as int, block) {
        if let Ok(data) = file_block(v, n, block, logical) {
            let full = got.len() >= 4 * leaf_room(block);
            if is_blank(data) && !full {
                extents_only_grow(s, v, n, block, got, logical + 1);
            } else if let Some((t, b)) = shared_block(s, data, full) {
                extents_only_grow(t, v, n, block, with_block(got, logical, b), logical + 1);
            }
        }
    }
}

/// A block that was stored already is not stored again, where the file can
/// point to the one that is there.
pub proof fn known_blocks_are_shared(s: Sharing, data: Seq<u8>)
    requires
        exists|b: int| is_stored(s.shared, data, b),
    ensures
        shared_block(s, data, false) matches Some((t, b)) && t == s && is_stored(
            s.shared,
            data,
            b as int,
        ),
{
    let b = choose|b: int| is_stored(s.shared, data, b);
    let k = choose|k: int|
        0 <= k < s.shared.len() && (#[trigger] s.shared[k]).0 == data && s.shared[k].1 == b;
    known_is_found(s.shared, data, k);
    known_is_stored(s.shared, data);
}

proof fn known_is_found(shared: Seq<(Seq<u8>, u32)>, data: Seq<u8>, k: int)
    requires
        0 <= k < shared.len(),
        shared[k].0 == data,
    ensures
        known_block(shared, data) is Some,
    decreases shared.len(),
{
    if shared.last().0 != data {
        assert(shared.drop_last()[k] == shared[k]);
        known_is_found(shared.drop_last(), data, k);
    }
}

} // verus!
