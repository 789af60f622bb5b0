//! Where the content of a fresh ext4 image goes.
use super::blocks::{served, BlockSource, Volume};
use super::ext4_inode::{
    count_leaf_room, has_short_target, is_short_link, leaf_count, leaf_room, leaves_match, Extents,
};
use super::ext4_layout::{all_names_fit, directory, directory_image, names_fit};
use super::ext4_space::{
    find_or_insert_shared_block, intact, one_block, runs, shared_block, Sharing, SharedIndex, Space,
    SpaceView, MAX_RUN,
};
use super::node::{ref_views, Node, NodeView};
use super::store::ByteStore;
use crate::buf::{pad_to, zeros};
use crate::error::{fail, told, Error, Fault};
use crate::math::{ceil_div, ceil_div_covers, div_up, greatest, least};
use vstd::prelude::*;

verus! {

/// Where the content of a node goes.
#[verifier::ext_equal]
pub struct Placed {
    pub size: int,
    /// The content of a directory.
    pub data: Seq<u8>,
    pub extents: Extents,
    /// The leaves of the extent tree.
    pub leaves: Seq<u32>,
}

/// Where the content of a node goes.
pub struct Placement {
    pub size: u64,
    pub data: Vec<u8>,
    pub extents: Vec<(u32, u32, u32)>,
    pub leaves: Vec<u32>,
}

impl View for Placement {
    type V = Placed;

    open spec fn view(&self) -> Placed {
        Placed {
            size: self.size as int,
            data: self.data@,
            extents: self.extents@,
            leaves: self.leaves@,
        }
    }
}

/// The views of placements.
pub open spec fn placed_views(s: Seq<Placement>) -> Seq<Placed> {
    s.map_values(|p: Placement| p@)
}

// ---------------------------------------------------------------------
// Shared files
// ---------------------------------------------------------------------
/// A block of a file, filled up with zeros.
pub open spec fn file_block(v: Volume, n: NodeView, block: int, logical: int) -> Result<
    Seq<u8>,
    Fault,
> {
    let len = least(block, n.data_size - logical * block);
    match served(v, n, logical * block, len) {
        Err(e) => Err(e),
        Ok(x) => Ok(x + zeros(block - len)),
    }
}

/// Whether a block holds nothing but zeros.
pub open spec fn is_blank(data: Seq<u8>) -> bool {
    forall|i: int| 0 <= i < data.len() ==> #[trigger] data[i] == 0
}

/// The extents with one more block of the file, joined to the last extent
/// where it continues it.
pub open spec fn with_block(s: Extents, logical: int, b: u32) -> Extents {
    if s.len() > 0 && s.last().0 + s.last().2 == logical && s.last().1 + s.last().2 == b
        && s.last().2 < MAX_RUN {
        s.drop_last().push((s.last().0, s.last().1, (s.last().2 + 1) as u32))
    } else {
        s.push((logical as u32, b, 1))
    }
}

/// The extents of a file from its block `logical` on, behind those that were
/// `got`: blank blocks are left out and known ones shared, as long as there
/// is room for more extents.
pub open spec fn shared_file(
    s: Sharing,
    v: Volume,
    n: NodeView,
    block: int,
    got: Extents,
    logical: int,
) -> Result<(Sharing, Extents), Fault>
    decreases greatest(ceil_div(n.data_size as int, block) - logical, 0),
{
    if logical >= ceil_div(n.data_size as int, block) {
        Ok((s, got))
    } else {
        match file_block(v, n, block, logical) {
            Err(e) => Err(e),
            Ok(data) => {
                let full = got.len() >= 4 * leaf_room(block);
                if is_blank(data) && !full {
                    shared_file(s, v, n, block, got, logical + 1)
                } else {
                    match shared_block(s, data, full) {
                        None => fail("ext4 compact image has no free data blocks"@),
                        Some((t, b)) => shared_file(
                            t,
                            v,
                            n,
                            block,
                            with_block(got, logical, b),
                            logical + 1,
                        ),
                    }
                }
            },
        }
    }
}

/// Whether a block holds nothing but zeros.
pub fn check_blank(data: &[u8]) -> (b: bool)
    ensures
        b == is_blank(data@),
{
    let mut i: usize = 0;
    while i < data.len()
        invariant
            i <= data@.len(),
            forall|k: int| 0 <= k < i ==> #[trigger] data@[k] == 0,
        decreases data.len() - i,
    {
        if data[i] != 0 {
            return false;
        }
        i += 1;
    }
    true
}

/// Reads a block of a file, filled up with zeros.
pub fn read_file_block<B: BlockSource>(source: &mut B, node: &Node, block: usize, logical: u64) -> (r:
    Result<Vec<u8>, Error>)
    requires
        old(source).wf(),
        0 < block <= 65536,
        logical < ceil_div(node.data_size as int, block as int),
    ensures
        final(source).wf(),
        final(source).volume() == old(source).volume(),
        final(source).unreliable() == old(source).unreliable(),
        told(
            old(source).unreliable(),
            r,
            file_block(old(source).volume(), node@, block as int, logical as int),
        ),
        r matches Ok(v) ==> v@.len() == block,
{
    proof {
        ceil_div_covers(node.data_size as int, block as int);
        let c = ceil_div(node.data_size as int, block as int);
        assert(0 <= logical * block < node.data_size) by (nonlinear_arith)
            requires
                logical + 1 <= c,
                c * block < node.data_size + block,
                0 < block,
        ;
    }
    let at = logical * block as u64;
    let left = node.data_size - at;
    let len: usize = if left < block as u64 {
        left as usize
    } else {
        block
    };
    let mut x = match source.read_node_block(node, at, len) {
        Ok(x) => x,
        Err(e) => {
            return Err(e);
        },
    };
    pad_to(&mut x, block);
    Ok(x)
}

/// Adds one block of a file to its extents.
fn add_block(s: &mut Vec<(u32, u32, u32)>, logical: u64, b: u32)
    requires
        logical <= u32::MAX,
    ensures
        final(s)@ == with_block(old(s)@, logical as int, b),
{
    let n = s.len();
    if n > 0 {
        let last = s[n - 1];
        if last.0 as u64 + last.2 as u64 == logical && last.1 as u64 + last.2 as u64 == b as u64
            && (last.2 as u64) < MAX_RUN {
            let ghost before = s@;
            s.set(n - 1, (last.0, last.1, last.2 + 1));
            assert(s@ =~= with_block(before, logical as int, b));
            return;
        }
    }
    s.push((logical as u32, b, 1));
}

/// The image, as far as blocks are shared in it.
pub open spec fn sharing<T: ByteStore>(space: Space, index: SharedIndex, store: T) -> Sharing {
    Sharing { space: space@, shared: index.shared(), image: store.content() }
}

/// Places a file whose blocks can be shared.
fn place_shared<B: BlockSource, T: ByteStore>(
    source: &mut B,
    node: &Node,
    block: usize,
    space: &mut Space,
    index: &mut SharedIndex,
    store: &mut T,
) -> (r: Result<Vec<(u32, u32, u32)>, Error>)
    requires
        old(source).wf(),
        1024 <= block <= 65536,
        old(index).wf(),
        old(space).used@.len() <= u32::MAX,
        intact(sharing(*old(space), *old(index), *old(store)), block as int),
        ceil_div(node.data_size as int, block as int) <= u32::MAX,
    ensures
        final(source).wf(),
        final(source).volume() == old(source).volume(),
        final(source).unreliable() == old(source).unreliable(),
        final(store).failing() == old(store).failing(),
        final(index).wf(),
        match r {
            Ok(v) => {
                &&& shared_file(
                    sharing(*old(space), *old(index), *old(store)),
                    old(source).volume(),
                    node@,
                    block as int,
                    Seq::empty(),
                    0,
                ) == Ok::<(Sharing, Extents), Fault>(
                    (sharing(*final(space), *final(index), *final(store)), v@),
                )
                &&& intact(sharing(*final(space), *final(index), *final(store)), block as int)
                &&& final(space).used@.len() == old(space).used@.len()
            },
            Err(e) => shared_file(
                sharing(*old(space), *old(index), *old(store)),
                old(source).volume(),
                node@,
                block as int,
                Seq::empty(),
                0,
            ) == Err::<(Sharing, Extents), Fault>(e@) || (e is Io && (old(source).unreliable()
                || old(store).failing())),
        },
{
    let ghost v = source.volume();
    let ghost bs = block as int;
    let ghost whole = shared_file(
        sharing(*space, *index, *store),
        v,
        node@,
        bs,
        Seq::empty(),
        0,
    );
    let count = div_up(node.data_size, block as u64);
    let most = 4 * count_leaf_room(block);
    let mut got: Vec<(u32, u32, u32)> = Vec::new();
    let mut logical: u64 = 0;
    while logical < count
        invariant
            source.wf(),
            v == source.volume(),
            v == old(source).volume(),
            source.unreliable() == old(source).unreliable(),
            store.failing() == old(store).failing(),
            index.wf(),
            bs == block,
            1024 <= block <= 65536,
            count == ceil_div(node.data_size as int, bs),
            count <= u32::MAX,
            most == 4 * leaf_room(bs),
            logical <= count,
            space.used@.len() == old(space).used@.len() <= u32::MAX,
            intact(sharing(*space, *index, *store), bs),
            whole == shared_file(
                sharing(*old(space), *old(index), *old(store)),
                v,
                node@,
                bs,
                Seq::empty(),
                0,
            ),
            whole == shared_file(
                sharing(*space, *index, *store),
                v,
                node@,
                bs,
                got@,
                logical as int,
            ),
        decreases count - logical,
    {
        let data = match read_file_block(source, node, block, logical) {
            Ok(x) => x,
            Err(e) => {
                return Err(e);
            },
        };
        let full = got.len() >= most;
        if !(check_blank(&data) && !full) {
            let b = match find_or_insert_shared_block(index, &data, full, space, store) {
                Ok(b) => b,
                Err(e) => {
                    return Err(e);
                },
            };
            add_block(&mut got, logical, b);
        }
        logical = logical + 1;
    }
    Ok(got)
}

// ---------------------------------------------------------------------
// Nodes
// ---------------------------------------------------------------------
/// Where the content of a node goes.
pub open spec fn placed_node(s: Sharing, v: Volume, n: NodeView, block: int, shared: bool) -> Result<
    (Sharing, Placed),
    Fault,
> {
    let data = directory_image(n, block);
    let size = if n.is_dir() {
        data.len() as int
    } else {
        n.data_size as int
    };
    if n.is_dir() && size > u32::MAX {
        fail("ext4 directory is too large"@)
    } else if !n.is_dir() && is_short_link(n) {
        Ok((s, Placed { size, data: Seq::empty(), extents: Seq::empty(), leaves: Seq::empty() }))
    } else if shared && !n.is_dir() && ceil_div(size, block) > u32::MAX {
        fail("ext4 logical block overflow"@)
    } else if shared && !n.is_dir() {
        match shared_file(s, v, n, block, Seq::empty(), 0) {
            Err(e) => Err(e),
            Ok((t, extents)) => Ok(
                (t, Placed { size, data: Seq::empty(), extents, leaves: Seq::empty() }),
            ),
        }
    } else {
        match runs(s.space, Seq::empty(), 0, ceil_div(size, block)) {
            None => fail("ext4 image has no free data blocks"@),
            Some((space, extents)) => Ok(
                (
                    Sharing { space, ..s },
                    Placed {
                        size,
                        data: if n.is_dir() {
                            data
                        } else {
                            Seq::empty()
                        },
                        extents,
                        leaves: Seq::empty(),
                    },
                ),
            ),
        }
    }
}

/// Where the content of the first `k` nodes goes.
pub open spec fn placed_nodes(
    s: Sharing,
    v: Volume,
    list: Seq<NodeView>,
    block: int,
    shared: bool,
    k: int,
) -> Result<(Sharing, Seq<Placed>), Fault>
    decreases k,
{
    if k <= 0 {
        Ok((s, Seq::empty()))
    } else {
        match placed_nodes(s, v, list, block, shared, k - 1) {
            Err(e) => Err(e),
            Ok((t, done)) => match placed_node(t, v, list[k - 1], block, shared) {
                Err(e) => Err(e),
                Ok((u, p)) => Ok((u, done.push(p))),
            },
        }
    }
}

proof fn placed_fail_early(
    s: Sharing,
    v: Volume,
    list: Seq<NodeView>,
    block: int,
    shared: bool,
    i: int,
    k: int,
)
    requires
        i <= k,
        placed_nodes(s, v, list, block, shared, i) is Err,
    ensures
        placed_nodes(s, v, list, block, shared, k) == placed_nodes(s, v, list, block, shared, i),
    decreases k,
{
    if i < k {
        if k > 0 {
            placed_fail_early(s, v, list, block, shared, i, k - 1);
        }
    }
}

/// Places the content of a node.
fn place_node<B: BlockSource, T: ByteStore>(
    source: &mut B,
    node: &Node,
    block: usize,
    shared: bool,
    space: &mut Space,
    index: &mut SharedIndex,
    store: &mut T,
) -> (r: Result<Placement, Error>)
    requires
        old(source).wf(),
        1024 <= block <= 65536,
        block % 4 == 0,
        names_fit(node@),
        old(index).wf(),
        old(space).used@.len() <= u32::MAX,
        intact(sharing(*old(space), *old(index), *old(store)), block as int),
    ensures
        final(source).wf(),
        final(source).volume() == old(source).volume(),
        final(source).unreliable() == old(source).unreliable(),
        final(store).failing() == old(store).failing(),
        final(index).wf(),
        match r {
            Ok(p) => {
                &&& placed_node(
                    sharing(*old(space), *old(index), *old(store)),
                    old(source).volume(),
                    node@,
                    block as int,
                    shared,
                ) == Ok::<(Sharing, Placed), Fault>(
                    (sharing(*final(space), *final(index), *final(store)), p@),
                )
                &&& intact(sharing(*final(space), *final(index), *final(store)), block as int)
                &&& final(space).used@.len() == old(space).used@.len()
                &&& p.data@.len() <= u32::MAX
            },
            Err(e) => placed_node(
                sharing(*old(space), *old(index), *old(store)),
                old(source).volume(),
                node@,
                block as int,
                shared,
            ) == Err::<(Sharing, Placed), Fault>(e@) || (e is Io && (old(source).unreliable()
                || old(store).failing())),
        },
{
    let is_dir = node.is_dir();
    let mut data: Vec<u8> = Vec::new();
    let mut size = node.data_size;
    if is_dir {
        data = match directory(node, block) {
            Some(v) => v,
            None => {
                return Err(Error::invalid("ext4 directory is too large"));
            },
        };
        if data.len() as u64 > u32::MAX as u64 {
            return Err(Error::invalid("ext4 directory is too large"));
        }
        size = data.len() as u64;
    }
    if !is_dir && has_short_target(node) {
        return Ok(Placement { size, data, extents: Vec::new(), leaves: Vec::new() });
    }
    let count = div_up(size, block as u64);
    if shared && !is_dir {
        if count > u32::MAX as u64 {
            return Err(Error::invalid("ext4 logical block overflow"));
        }
        let extents = match place_shared(source, node, block, space, index, store) {
            Ok(v) => v,
            Err(e) => {
                return Err(e);
            },
        };
        return Ok(Placement { size, data, extents, leaves: Vec::new() });
    }
    let ghost before = sharing(*space, *index, *store);
    let extents = match space.take_runs(count) {
        Some(v) => v,
        None => {
            return Err(Error::invalid("ext4 image has no free data blocks"));
        },
    };
    proof {
        runs_stay_intact(before, block as int, Seq::empty(), 0, count as int);
        assert(sharing(*space, *index, *store) == (Sharing { space: space@, ..before }));
    }
    Ok(Placement { size, data, extents, leaves: Vec::new() })
}

/// Taking blocks leaves what was written intact.
proof fn runs_stay_intact(s: Sharing, block: int, got: Extents, logical: int, left: int)
    requires
        intact(s, block),
    ensures
        runs(s.space, got, logical, left) matches Some((space, _)) ==> intact(
            (Sharing { space, ..s }),
            block,
        ) && space.used.len() == s.space.used.len(),
    decreases left,
{
    if left > 0 {
        let at = super::ext4_space::first_free(s.space.used, s.space.next);
        let n = super::ext4_space::free_run(s.space.used, at, least(left, MAX_RUN as int));
        if !(at >= s.space.used.len() || n <= 0) {
            let t = Sharing {
                space: SpaceView {
                    used: super::ext4_space::taken(s.space.used, at, n),
                    next: at + n,
                },
                ..s
            };
            assert(intact(t, block)) by {
                assert forall|k: int| 0 <= k < t.shared.len() implies {
                    let e = #[trigger] t.shared[k];
                    &&& e.1 < t.space.used.len()
                    &&& t.space.used[e.1 as int]
                    &&& e.0.len() == block
                    &&& t.image.subrange(e.1 * block, e.1 * block + block) == e.0
                } by {
                    assert(t.shared[k] == s.shared[k]);
                }
            }
            if n <= left {
                runs_stay_intact(
                    t,
                    block,
                    got.push((logical as u32, at as u32, n as u32)),
                    logical + n,
                    left - n,
                );
            } else {
                assert(runs(
                    t.space,
                    got.push((logical as u32, at as u32, n as u32)),
                    logical + n,
                    left - n,
                ) == Some((t.space, got.push((logical as u32, at as u32, n as u32)))));
            }
        }
    }
}

/// Places the content of all nodes.
pub fn place_nodes<B: BlockSource, T: ByteStore>(
    source: &mut B,
    list: &Vec<&Node>,
    block: usize,
    shared: bool,
    space: &mut Space,
    store: &mut T,
) -> (r: Result<Vec<Placement>, Error>)
    requires
        old(source).wf(),
        1024 <= block <= 65536,
        block % 4 == 0,
        all_names_fit(ref_views(list@)),
        old(space).used@.len() <= u32::MAX,
        old(store).content().len() == old(space).used@.len() * block,
    ensures
        final(source).wf(),
        final(source).volume() == old(source).volume(),
        final(source).unreliable() == old(source).unreliable(),
        final(store).failing() == old(store).failing(),
        match r {
            Ok(v) => {
                &&& placed_nodes(
                    (Sharing {
                        space: old(space)@,
                        shared: Seq::empty(),
                        image: old(store).content(),
                    }),
                    old(source).volume(),
                    ref_views(list@),
                    block as int,
                    shared,
                    list@.len() as int,
                ) matches Ok((t, done)) && t.space == final(space)@ && t.image == final(
                    store).content() && done == placed_views(v@)
                &&& final(space).used@.len() == old(space).used@.len()
                &&& v@.len() == list@.len()
                &&& forall|k: int| 0 <= k < v@.len() ==> (#[trigger] v@[k]).data@.len() <= u32::MAX
            },
            Err(e) => placed_nodes(
                (Sharing {
                    space: old(space)@,
                    shared: Seq::empty(),
                    image: old(store).content(),
                }),
                old(source).volume(),
                ref_views(list@),
                block as int,
                shared,
                list@.len() as int,
            ) == Err::<(Sharing, Seq<Placed>), Fault>(e@) || (e is Io && (old(
                source,
            ).unreliable() || old(store).failing())),
        },
{
    let ghost s = ref_views(list@);
    let ghost v = source.volume();
    let ghost bs = block as int;
    let ghost first = Sharing {
        space: space@,
        shared: Seq::empty(),
        image: store.content(),
    };
    let mut index = SharedIndex::new();
    let mut done: Vec<Placement> = Vec::new();
    let mut i: usize = 0;
    assert(placed_views(done@) =~= Seq::empty());
    assert(sharing(*space, index, *store) == first);
    while i < list.len()
        invariant
            source.wf(),
            v == source.volume(),
            v == old(source).volume(),
            source.unreliable() == old(source).unreliable(),
            store.failing() == old(store).failing(),
            index.wf(),
            bs == block,
            1024 <= block <= 65536,
            block % 4 == 0,
            s == ref_views(list@),
            all_names_fit(s),
            i <= list@.len() == s.len(),
            done@.len() == i,
            forall|k: int| 0 <= k < i ==> (#[trigger] done@[k]).data@.len() <= u32::MAX,
            space.used@.len() == old(space).used@.len() <= u32::MAX,
            intact(sharing(*space, index, *store), bs),
            first == (Sharing {
                space: old(space)@,
                shared: Seq::empty(),
                image: old(store).content(),
            }),
            placed_nodes(first, v, s, bs, shared, i as int) == Ok::<(Sharing, Seq<Placed>), Fault>(
                (sharing(*space, index, *store), placed_views(done@)),
            ),
        decreases list.len() - i,
    {
        let node = list[i];
        assert(s[i as int] == node@);
        assert(names_fit(s[i as int]));
        let ghost before = placed_views(done@);
        match place_node(source, node, block, shared, space, &mut index, store) {
            Ok(p) => {
                done.push(p);
                assert(placed_views(done@) =~= before.push(p@));
            },
            Err(e) => {
                proof {
                    if placed_nodes(first, v, s, bs, shared, i + 1) is Err {
                        placed_fail_early(first, v, s, bs, shared, i + 1, s.len() as int);
                    }
                }
                return Err(e);
            },
        }
        i += 1;
    }
    Ok(done)
}

// ---------------------------------------------------------------------
// Extent trees
// ---------------------------------------------------------------------
/// Single free blocks, `n` of them.
pub open spec fn single_blocks(s: SpaceView, n: int) -> Option<(SpaceView, Seq<u32>)>
    decreases n,
{
    if n <= 0 {
        Some((s, Seq::empty()))
    } else {
        match single_blocks(s, n - 1) {
            None => None,
            Some((t, got)) => match one_block(t) {
                None => None,
                Some((u, b)) => Some((u, got.push(b))),
            },
        }
    }
}

/// The placement of a node with the leaves of its extent tree.
pub open spec fn with_leaves(s: SpaceView, p: Placed, block: int) -> Result<
    (SpaceView, Placed),
    Fault,
> {
    if p.extents.len() > 4 * leaf_room(block) {
        fail("ext4 file requires an extent tree deeper than one level"@)
    } else {
        match single_blocks(s, leaf_count(p.extents.len() as int, block)) {
            None => fail("ext4 compact image has no free metadata blocks"@),
            Some((t, leaves)) => Ok((t, Placed { leaves, ..p })),
        }
    }
}

/// The first `k` placements with their leaves.
pub open spec fn all_with_leaves(s: SpaceView, p: Seq<Placed>, block: int, k: int) -> Result<
    (SpaceView, Seq<Placed>),
    Fault,
>
    decreases k,
{
    if k <= 0 {
        Ok((s, Seq::empty()))
    } else {
        match all_with_leaves(s, p, block, k - 1) {
            Err(e) => Err(e),
            Ok((t, done)) => match with_leaves(t, p[k - 1], block) {
                Err(e) => Err(e),
                Ok((u, x)) => Ok((u, done.push(x))),
            },
        }
    }
}

proof fn leaves_fail_early(s: SpaceView, p: Seq<Placed>, block: int, i: int, k: int)
    requires
        i <= k,
        all_with_leaves(s, p, block, i) is Err,
    ensures
        all_with_leaves(s, p, block, k) == all_with_leaves(s, p, block, i),
    decreases k,
{
    if i < k {
        if k > 0 {
            leaves_fail_early(s, p, block, i, k - 1);
        }
    }
}

proof fn single_fail_early(s: SpaceView, i: int, k: int)
    requires
        i <= k,
        single_blocks(s, i) is None,
    ensures
        single_blocks(s, k) is None,
    decreases k,
{
    if i < k {
        if k > 0 {
            single_fail_early(s, i, k - 1);
        }
    }
}

fn take_singles(space: &mut Space, n: usize) -> (r: Option<Vec<u32>>)
    requires
        old(space).used@.len() <= u32::MAX,
    ensures
        match r {
            Some(v) => single_blocks(old(space)@, n as int) == Some((final(space)@, v@))
                && v@.len() == n,
            None => single_blocks(old(space)@, n as int) is None,
        },
        final(space).used@.len() == old(space).used@.len(),
{
    let ghost first = space@;
    let mut got: Vec<u32> = Vec::new();
    let mut i: usize = 0;
    while i < n
        invariant
            i <= n,
            first == old(space)@,
            space.used@.len() == old(space).used@.len() <= u32::MAX,
            got@.len() == i,
            single_blocks(first, i as int) == Some((space@, got@)),
        decreases n - i,
    {
        match space.take_one() {
            Some(b) => {
                got.push(b);
            },
            None => {
                proof {
                    single_fail_early(first, i + 1, n as int);
                }
                return None;
            },
        }
        i += 1;
    }
    Some(got)
}

/// Gives every placement the leaves of its extent tree.
pub fn place_leaves(space: &mut Space, placements: &mut Vec<Placement>, block: usize) -> (r: Result<
    (),
    Error,
>)
    requires
        1024 <= block <= 65536,
        old(space).used@.len() <= u32::MAX,
    ensures
        final(space).used@.len() == old(space).used@.len(),
        final(placements)@.len() == old(placements)@.len(),
        forall|k: int|
            0 <= k < final(placements)@.len() ==> (#[trigger] final(placements)@[k]).data@ == old(
                placements,
            )@[k].data@,
        match r {
            Ok(_) => {
                &&& all_with_leaves(
                    old(space)@,
                    placed_views(old(placements)@),
                    block as int,
                    old(placements)@.len() as int,
                ) == Ok::<(SpaceView, Seq<Placed>), Fault>(
                    (final(space)@, placed_views(final(placements)@)),
                )
                &&& forall|k: int|
                    0 <= k < final(placements)@.len() ==> leaves_match(
                        (#[trigger] final(placements)@[k]).extents@,
                        final(placements)@[k].leaves@,
                        block as int,
                    )
            },
            Err(e) => all_with_leaves(
                old(space)@,
                placed_views(old(placements)@),
                block as int,
                old(placements)@.len() as int,
            ) == Err::<(SpaceView, Seq<Placed>), Fault>(e@),
        },
{
    let ghost first = space@;
    let ghost views = placed_views(placements@);
    let ghost bs = block as int;
    let room = count_leaf_room(block);
    let n = placements.len();
    let mut i: usize = 0;
    assert(placed_views(placements@).take(0) =~= Seq::empty());
    while i < n
        invariant
            i <= n,
            n == placements@.len(),
            n == views.len(),
            bs == block,
            1024 <= block <= 65536,
            room == leaf_room(bs),
            1 <= room <= 340,
            first == old(space)@,
            views == placed_views(old(placements)@),
            n == old(placements)@.len(),
            space.used@.len() == old(space).used@.len() <= u32::MAX,
            forall|k: int| i <= k < n ==> (#[trigger] placements@[k])@ == views[k],
            forall|k: int| 0 <= k < n ==> (#[trigger] placements@[k]).data@ == views[k].data,
            forall|k: int| 0 <= k < n ==> (#[trigger] views[k]).data == old(placements)@[k].data@,
            forall|k: int|
                0 <= k < i ==> leaves_match(
                    (#[trigger] placements@[k]).extents@,
                    placements@[k].leaves@,
                    bs,
                ),
            all_with_leaves(first, views, bs, i as int) == Ok::<(SpaceView, Seq<Placed>), Fault>(
                (space@, placed_views(placements@).take(i as int)),
            ),
        decreases n - i,
    {
        let count = placements[i].extents.len();
        assert(placements@[i as int]@ == views[i as int]);
        if count > 4 * room {
            proof {
                leaves_fail_early(first, views, bs, i + 1, n as int);
            }
            return Err(
                Error::invalid("ext4 file requires an extent tree deeper than one level"),
            );
        }
        let leaves = if count <= 1 {
            0
        } else {
            div_up(count as u64, room as u64) as usize
        };
        proof {
            ceil_div_covers(count as int, room as int);
        }
        assert(leaves == leaf_count(count as int, bs));
        let ghost before = placements@;
        match take_singles(space, leaves) {
            Some(v) => {
                placements[i].leaves = v;
            },
            None => {
                proof {
                    leaves_fail_early(first, views, bs, i + 1, n as int);
                }
                return Err(Error::invalid("ext4 compact image has no free metadata blocks"));
            },
        }
        proof {
            let x = placements@[i as int]@;
            assert(placements@ =~= before.update(i as int, placements@[i as int]));
            assert(x == (Placed { leaves: x.leaves, ..views[i as int] }));
            assert(placed_views(placements@).take(i + 1) =~= placed_views(before).take(
                i as int,
            ).push(x));
        }
        i += 1;
    }
    assert(placed_views(placements@).take(i as int) =~= placed_views(placements@));
    Ok(())
}

} // verus!
