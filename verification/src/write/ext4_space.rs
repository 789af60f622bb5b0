//! The blocks of a fresh ext4 image, and who gets them.
use super::store::{laid, ByteStore};
use crate::error::{Error, Fault};
use crate::math::{greatest, least};
use crate::text::same_bytes;
use std::collections::hash_map::DefaultHasher;
use std::collections::HashMap;
use std::hash::Hasher;
use vstd::prelude::*;
use vstd::std_specs::hash::DefaultHasherAdditionalSpecFns;

verus! {

/// The most blocks that an extent maps.
pub const MAX_RUN: u64 = 32767;

/// Which blocks are used, and where the search for free ones goes on.
#[verifier::ext_equal]
pub struct SpaceView {
    pub used: Seq<bool>,
    pub next: int,
}

/// The first free block from `at` on, or the number of blocks.
pub open spec fn first_free(used: Seq<bool>, at: int) -> int
    decreases used.len() - at,
{
    if at >= used.len() {
        used.len() as int
    } else if !used[at] {
        at
    } else {
        first_free(used, at + 1)
    }
}

/// The number of free blocks from `at` on without a gap, at most `most`.
pub open spec fn free_run(used: Seq<bool>, at: int, most: int) -> int
    decreases most,
{
    if most <= 0 || at >= used.len() || used[at] {
        0
    } else {
        1 + free_run(used, at + 1, most - 1)
    }
}

/// The blocks with `n` more of them used.
pub open spec fn taken(used: Seq<bool>, at: int, n: int) -> Seq<bool> {
    Seq::new(used.len(), |i: int| used[i] || at <= i < at + n)
}

/// The extents for `left` blocks of a file from its block `logical` on,
/// behind those that were `got`: the first free blocks, in runs as long as
/// can be.
pub open spec fn runs(s: SpaceView, got: Seq<(u32, u32, u32)>, logical: int, left: int) -> Option<
    (SpaceView, Seq<(u32, u32, u32)>),
>
    decreases greatest(left, 0),
{
    if left <= 0 {
        Some((s, got))
    } else {
        let at = first_free(s.used, s.next);
        let n = free_run(s.used, at, least(left, MAX_RUN as int));
        if at >= s.used.len() || n <= 0 {
            None
        } else {
            runs(
                SpaceView { used: taken(s.used, at, n), next: at + n },
                got.push((logical as u32, at as u32, n as u32)),
                logical + n,
                left - n,
            )
        }
    }
}

/// One free block.
pub open spec fn one_block(s: SpaceView) -> Option<(SpaceView, u32)> {
    let at = first_free(s.used, s.next);
    if at >= s.used.len() {
        None
    } else {
        Some((SpaceView { used: taken(s.used, at, 1), next: at + 1 }, at as u32))
    }
}

/// Which blocks are used, and where the search for free ones goes on.
pub struct Space {
    pub used: Vec<bool>,
    pub next: u64,
}

impl View for Space {
    type V = SpaceView;

    open spec fn view(&self) -> SpaceView {
        SpaceView { used: self.used@, next: self.next as int }
    }
}

/// A free block is found from the place on where it is looked for.
pub proof fn first_free_bounds(used: Seq<bool>, at: int)
    requires
        0 <= at,
    ensures
        first_free(used, at) < used.len() ==> at <= first_free(used, at) && !used[first_free(
            used,
            at,
        )],
        first_free(used, at) <= used.len(),
        0 <= first_free(used, at),
    decreases used.len() - at,
{
    if at < used.len() && used[at] {
        first_free_bounds(used, at + 1);
    }
}

/// A run is made of free blocks.
pub proof fn free_run_is_free(used: Seq<bool>, at: int, most: int)
    requires
        0 <= at,
    ensures
        0 <= free_run(used, at, most),
        most >= 0 ==> free_run(used, at, most) <= most,
        at <= used.len() ==> at + free_run(used, at, most) <= used.len(),
        forall|i: int| at <= i < at + free_run(used, at, most) ==> !#[trigger] used[i],
    decreases most,
{
    if !(most <= 0 || at >= used.len() || used[at]) {
        free_run_is_free(used, at + 1, most - 1);
    }
}

impl Space {
    /// Finds the first free block.
    fn find_free(&self) -> (at: u64)
        requires
            self.used@.len() <= u32::MAX,
        ensures
            at == first_free(self.used@, self.next as int),
    {
        let n = self.used.len() as u64;
        if self.next >= n {
            return n;
        }
        let mut at = self.next;
        while at < n && self.used[at as usize]
            invariant
                at <= n,
                n == self.used@.len(),
                n <= u32::MAX,
                first_free(self.used@, at as int) == first_free(self.used@, self.next as int),
            decreases n - at,
        {
            at = at + 1;
        }
        at
    }

    /// Measures a run of free blocks.
    fn measure_run(&self, at: u64, most: u64) -> (n: u64)
        requires
            self.used@.len() <= u32::MAX,
            at < self.used@.len(),
        ensures
            n == free_run(self.used@, at as int, most as int),
            n <= most,
            at + n <= self.used@.len(),
    {
        let mut n: u64 = 0;
        while n < most && at + n < self.used.len() as u64 && !self.used[(at + n) as usize]
            invariant
                n <= most,
                at + n <= self.used@.len() <= u32::MAX,
                free_run(self.used@, at as int, most as int) == n + free_run(
                    self.used@,
                    at + n,
                    most - n,
                ),
            decreases most - n,
        {
            n = n + 1;
        }
        n
    }

    /// Marks blocks as used.
    pub fn take(&mut self, at: u64, n: u64)
        requires
            at + n <= old(self).used@.len() <= u32::MAX,
        ensures
            final(self).used@ == taken(old(self).used@, at as int, n as int),
            final(self).next == old(self).next,
    {
        let ghost before = self.used@;
        let mut k: u64 = 0;
        assert(self.used@ =~= taken(before, at as int, 0));
        while k < n
            invariant
                k <= n,
                at + n <= before.len() <= u32::MAX,
                self.used@ == taken(before, at as int, k as int),
                self.next == old(self).next,
                before == old(self).used@,
            decreases n - k,
        {
            self.used.set((at + k) as usize, true);
            assert(self.used@ =~= taken(before, at as int, k + 1));
            k = k + 1;
        }
    }

    /// Takes one free block.
    pub fn take_one(&mut self) -> (r: Option<u32>)
        requires
            old(self).used@.len() <= u32::MAX,
        ensures
            match r {
                Some(b) => one_block(old(self)@) == Some((final(self)@, b)),
                None => one_block(old(self)@) is None,
            },
            final(self).used@.len() == old(self).used@.len(),
    {
        proof {
            first_free_bounds(self.used@, self.next as int);
        }
        let at = self.find_free();
        if at >= self.used.len() as u64 {
            return None;
        }
        self.take(at, 1);
        self.next = at + 1;
        Some(at as u32)
    }

    /// Takes free blocks for `count` blocks of a file.
    pub fn take_runs(&mut self, count: u64) -> (r: Option<Vec<(u32, u32, u32)>>)
        requires
            old(self).used@.len() <= u32::MAX,
        ensures
            match r {
                Some(v) => runs(old(self)@, Seq::empty(), 0, count as int) == Some(
                    (final(self)@, v@),
                ),
                None => runs(old(self)@, Seq::empty(), 0, count as int) is None,
            },
            final(self).used@.len() == old(self).used@.len(),
    {
        let ghost first = self@;
        let mut got: Vec<(u32, u32, u32)> = Vec::new();
        let mut done: u64 = 0;
        while done < count
            invariant
                done <= count,
                self.used@.len() == first.used.len() <= u32::MAX,
                first == old(self)@,
                runs(first, Seq::empty(), 0, count as int) == runs(
                    self@,
                    got@,
                    done as int,
                    count - done,
                ),
            decreases count - done,
        {
            let left = count - done;
            proof {
                first_free_bounds(self.used@, self.next as int);
            }
            let at = self.find_free();
            if at >= self.used.len() as u64 {
                return None;
            }
            let most = if left < MAX_RUN {
                left
            } else {
                MAX_RUN
            };
            let n = self.measure_run(at, most);
            if n == 0 {
                return None;
            }
            self.take(at, n);
            self.next = at + n;
            got.push((done as u32, at as u32, n as u32));
            done = done + n;
        }
        Some(got)
    }
}

// ---------------------------------------------------------------------
// Shared blocks
// ---------------------------------------------------------------------
/// The first of the written blocks with the given content.
pub open spec fn known_block(shared: Seq<(Seq<u8>, u32)>, data: Seq<u8>) -> Option<u32>
    decreases shared.len(),
{
    if shared.len() == 0 {
        None
    } else {
        match known_block(shared.drop_last(), data) {
            Some(b) => Some(b),
            None => if shared.last().0 == data {
                Some(shared.last().1)
            } else {
                None
            },
        }
    }
}

/// An image while blocks are shared: which blocks are used, what was
/// written to blocks that can be shared, and the bytes.
#[verifier::ext_equal]
pub struct Sharing {
    pub space: SpaceView,
    pub shared: Seq<(Seq<u8>, u32)>,
    pub image: Seq<u8>,
}

/// The block for some content: one that holds it already, or, with `fresh`
/// in any case, a free one that it is written to.
pub open spec fn shared_block(s: Sharing, data: Seq<u8>, fresh: bool) -> Option<(Sharing, u32)> {
    match known_block(s.shared, data) {
        Some(b) if !fresh => Some((s, b)),
        _ => match one_block(s.space) {
            None => None,
            Some((space, b)) => Some(
                (
                    Sharing {
                        space,
                        shared: s.shared.push((data, b)),
                        image: laid(s.image, b * data.len(), data),
                    },
                    b,
                ),
            ),
        },
    }
}

/// What was written to blocks that can be shared is still there.
pub open spec fn intact(s: Sharing, block: int) -> bool {
    &&& s.image.len() == s.space.used.len() * block
    &&& forall|k: int|
        0 <= k < s.shared.len() ==> {
            let e = #[trigger] s.shared[k];
            &&& e.1 < s.space.used.len()
            &&& s.space.used[e.1 as int]
            &&& e.0.len() == block
            &&& s.image.subrange(e.1 * block, e.1 * block + block) == e.0
        }
}

/// The number by which a block is found again.
pub open spec fn block_hash(data: Seq<u8>) -> u64 {
    DefaultHasher::spec_finish(seq![data])
}

/// Computes the number by which a block is found again.
pub fn hash_block(data: &[u8]) -> (h: u64)
    ensures
        h == block_hash(data@),
{
    let mut hasher = DefaultHasher::new();
    hasher.write(data);
    assert(hasher@ =~= seq![data@]);
    hasher.finish()
}

/// The written blocks with the given number.
spec fn bucket(shared: Seq<(Seq<u8>, u32)>, h: u64) -> Seq<(Seq<u8>, u32)>
    decreases shared.len(),
{
    if shared.len() == 0 {
        Seq::empty()
    } else if block_hash(shared.last().0) == h {
        bucket(shared.drop_last(), h).push(shared.last())
    } else {
        bucket(shared.drop_last(), h)
    }
}

spec fn numbers(s: Seq<(Seq<u8>, u32)>) -> Seq<u32> {
    s.map_values(|e: (Seq<u8>, u32)| e.1)
}

/// A block is among those with its number.
proof fn bucket_knows(shared: Seq<(Seq<u8>, u32)>, data: Seq<u8>)
    ensures
        known_block(shared, data) == known_block(bucket(shared, block_hash(data)), data),
    decreases shared.len(),
{
    if shared.len() > 0 {
        let front = shared.drop_last();
        bucket_knows(front, data);
        if block_hash(shared.last().0) == block_hash(data) {
            let b = bucket(front, block_hash(data));
            assert(b.push(shared.last()).drop_last() =~= b);
        }
    }
}

/// What is in a bucket was written.
proof fn bucket_is_part(shared: Seq<(Seq<u8>, u32)>, h: u64, k: int)
    requires
        0 <= k < bucket(shared, h).len(),
    ensures
        exists|j: int| 0 <= j < shared.len() && #[trigger] shared[j] == bucket(shared, h)[k],
    decreases shared.len(),
{
    let front = shared.drop_last();
    if block_hash(shared.last().0) == h && k == bucket(front, h).len() {
        assert(shared[shared.len() - 1] == bucket(shared, h)[k]);
    } else {
        bucket_is_part(front, h, k);
        let j = choose|j: int| 0 <= j < front.len() && #[trigger] front[j] == bucket(front, h)[k];
        assert(shared[j] == bucket(shared, h)[k]);
    }
}

/// The blocks that can be shared, by their numbers.
pub struct SharedIndex {
    map: HashMap<u64, Vec<u32>>,
    written: Ghost<Seq<(Seq<u8>, u32)>>,
}

impl SharedIndex {
    /// What was written, in order.
    pub closed spec fn shared(self) -> Seq<(Seq<u8>, u32)> {
        self.written@
    }

    /// Each number leads to the blocks with it, in order.
    pub closed spec fn wf(self) -> bool {
        forall|h: u64|
            {
                &&& #[trigger] self.map@.contains_key(h) <==> bucket(self.written@, h).len() > 0
                &&& self.map@.contains_key(h) ==> self.map@[h]@ == numbers(
                    bucket(self.written@, h),
                )
            }
    }

    /// An index without blocks.
    pub fn new() -> (r: SharedIndex)
        ensures
            r.wf(),
            r.shared() == Seq::<(Seq<u8>, u32)>::empty(),
    {
        SharedIndex { map: HashMap::new(), written: Ghost(Seq::empty()) }
    }

    /// Finds a block that holds the data already.
    fn find<T: ByteStore>(&self, hash: u64, data: &[u8], store: &T, used: Ghost<Seq<bool>>) -> (r:
        Result<Option<u32>, Error>)
        requires
            self.wf(),
            hash == block_hash(data@),
            data@.len() <= 65536,
            intact(
                (Sharing {
                    space: SpaceView { used: used@, next: 0 },
                    shared: self.shared(),
                    image: store.content(),
                }),
                data@.len() as int,
            ),
        ensures
            match r {
                Ok(b) => b == known_block(self.shared(), data@),
                Err(e) => e is Io && store.failing(),
            },
    {
        let ghost shared = self.written@;
        let ghost b = bucket(shared, hash);
        let ghost whole = Sharing {
            space: SpaceView { used: used@, next: 0 },
            shared,
            image: store.content(),
        };
        let block = data.len();
        proof {
            bucket_knows(shared, data@);
        }
        match self.map.get(&hash) {
            None => Ok(None),
            Some(candidates) => {
                let mut k: usize = 0;
                assert(candidates@ == numbers(b));
                assert(b.take(0) =~= Seq::empty());
                while k < candidates.len()
                    invariant
                        k <= candidates@.len(),
                        candidates@ == numbers(b),
                        b == bucket(shared, hash),
                        shared == self.shared(),
                        block == data@.len(),
                        block <= 65536,
                        known_block(b.take(k as int), data@) is None,
                        known_block(shared, data@) == known_block(b, data@),
                        intact(whole, block as int),
                        whole.shared == shared,
                        whole.image == store.content(),
                    decreases candidates.len() - k,
                {
                    let at = candidates[k];
                    proof {
                        bucket_is_part(shared, hash, k as int);
                        let j = choose|j: int|
                            0 <= j < shared.len() && #[trigger] shared[j] == b[k as int];
                        assert(whole.shared[j].1 == at);
                        let n = whole.space.used.len() as int;
                        assert(at * block + block <= n * block && at * block <= 0xffff_ffff * 65536)
                            by (nonlinear_arith)
                            requires
                                at + 1 <= n,
                                at <= 0xffff_ffff,
                                0 <= block <= 65536,
                        ;
                        let t = b.take(k + 1);
                        assert(t.drop_last() =~= b.take(k as int));
                        assert(t.last() == b[k as int]);
                    }
                    let x = match store.fetch(at as u64 * block as u64, block) {
                        Ok(x) => x,
                        Err(e) => {
                            return Err(e);
                        },
                    };
                    if same_bytes(&x, data) {
                        proof {
                            known_stays(b, data@, k + 1);
                        }
                        return Ok(Some(at));
                    }
                    k += 1;
                }
                assert(b.take(k as int) =~= b);
                Ok(None)
            },
        }
    }

    /// Adds a block.
    fn add_block(&mut self, hash: u64, data: &[u8], at: u32)
        requires
            old(self).wf(),
            hash == block_hash(data@),
        ensures
            final(self).wf(),
            final(self).shared() == old(self).shared().push((data@, at)),
    {
        let ghost before = self.written@;
        let ghost now = before.push((data@, at));
        let mut list = match self.map.remove(&hash) {
            Some(v) => v,
            None => Vec::new(),
        };
        let ghost old_list = list@;
        list.push(at);
        self.map.insert(hash, list);
        self.written = Ghost(now);
        proof {
            assert(now.drop_last() =~= before);
            assert(now.last() == (data@, at));
            assert(old_list =~= numbers(bucket(before, hash)));
            assert(list@ =~= numbers(bucket(now, hash)));
            assert forall|h: u64|
                {
                    &&& #[trigger] self.map@.contains_key(h) <==> bucket(self.written@, h).len()
                        > 0
                    &&& self.map@.contains_key(h) ==> self.map@[h]@ == numbers(
                        bucket(self.written@, h),
                    )
                } by {
                assert(old(self).map@.contains_key(h) <==> bucket(before, h).len() > 0);
                if h != hash {
                    assert(bucket(now, h) == bucket(before, h));
                }
            }
        }
    }
}

/// The first match among the first ones is the first match.
proof fn known_stays(s: Seq<(Seq<u8>, u32)>, data: Seq<u8>, k: int)
    requires
        0 <= k <= s.len(),
        known_block(s.take(k), data) is Some,
    ensures
        known_block(s, data) == known_block(s.take(k), data),
    decreases s.len(),
{
    if k == s.len() {
        assert(s.take(k) =~= s);
    } else {
        assert(s.drop_last().take(k) =~= s.take(k));
        known_stays(s.drop_last(), data, k);
    }
}

/// Writing to a free block leaves what was written intact.
pub proof fn stays_intact(s: Sharing, data: Seq<u8>, fresh: bool)
    requires
        intact(s, data.len() as int),
        s.space.used.len() <= u32::MAX,
        0 <= s.space.next,
    ensures
        shared_block(s, data, fresh) matches Some((t, b)) ==> intact(t, data.len() as int)
            && t.space.used.len() == s.space.used.len() && 0 <= t.space.next,
{
    let block = data.len() as int;
    if let Some((t, b)) = shared_block(s, data, fresh) {
        if t != s {
            first_free_bounds(s.space.used, s.space.next);
            let n = s.space.used.len();
            assert(b * block + block <= n * block && 0 <= b * block) by (nonlinear_arith)
                requires
                    b + 1 <= n,
                    0 <= b,
                    0 <= block,
            ;
            assert(t.image.len() == s.image.len());
            assert forall|k: int| 0 <= k < t.shared.len() implies {
                let e = #[trigger] t.shared[k];
                &&& e.1 < t.space.used.len()
                &&& t.space.used[e.1 as int]
                &&& e.0.len() == block
                &&& t.image.subrange(e.1 * block, e.1 * block + block) == e.0
            } by {
                let e = t.shared[k];
                if k == s.shared.len() {
                    assert(t.image.subrange(e.1 * block, e.1 * block + block) =~= data);
                } else {
                    assert(e == s.shared[k]);
                    let x = e.1 as int;
                    assert(x != b);
                    let y = b as int;
                    assert(x * block + block <= y * block || y * block + block <= x * block)
                        by (nonlinear_arith)
                        requires
                            x < y || y < x,
                            0 <= block,
                    ;
                    assert(x * block + block <= n * block && 0 <= x * block) by (nonlinear_arith)
                        requires
                            x + 1 <= n,
                            0 <= x,
                            0 <= block,
                    ;
                    assert(t.image.subrange(x * block, x * block + block) =~= s.image.subrange(
                        x * block,
                        x * block + block,
                    ));
                }
            }
        }
    }
}

/// Finds a block for some content: one that holds it already, or a free one
/// that it is written to.
pub fn find_or_insert_shared_block<T: ByteStore>(
    index: &mut SharedIndex,
    data: &[u8],
    fresh: bool,
    space: &mut Space,
    store: &mut T,
) -> (r: Result<u32, Error>)
    requires
        old(index).wf(),
        1 <= data@.len() <= 65536,
        old(space).used@.len() <= u32::MAX,
        intact(
            (Sharing {
                space: old(space)@,
                shared: old(index).shared(),
                image: old(store).content(),
            }),
            data@.len() as int,
        ),
    ensures
        final(index).wf(),
        final(store).failing() == old(store).failing(),
        match r {
            Ok(b) => {
                let t = Sharing {
                    space: final(space)@,
                    shared: final(index).shared(),
                    image: final(store).content(),
                };
                &&& shared_block(
                    (Sharing {
                        space: old(space)@,
                        shared: old(index).shared(),
                        image: old(store).content(),
                    }),
                    data@,
                    fresh,
                ) == Some((t, b))
                &&& intact(t, data@.len() as int)
                &&& final(space).used@.len() == old(space).used@.len()
            },
            Err(e) => {
                ||| e is Io && old(store).failing()
                ||| {
                    &&& shared_block(
                        (Sharing {
                            space: old(space)@,
                            shared: old(index).shared(),
                            image: old(store).content(),
                        }),
                        data@,
                        fresh,
                    ) is None
                    &&& e@ == Fault::Invalid("ext4 compact image has no free data blocks"@)
                }
            },
        },
{
    let ghost s = Sharing {
        space: space@,
        shared: index.shared(),
        image: store.content(),
    };
    proof {
        stays_intact(s, data@, fresh);
    }
    let hash = hash_block(data);
    if !fresh {
        match index.find(hash, data, &*store, Ghost(space.used@)) {
            Err(e) => {
                return Err(e);
            },
            Ok(Some(b)) => {
                return Ok(b);
            },
            Ok(None) => {},
        }
    }
    proof {
        first_free_bounds(space.used@, space.next as int);
    }
    let b = match space.take_one() {
        None => {
            return Err(Error::invalid("ext4 compact image has no free data blocks"));
        },
        Some(b) => b,
    };
    proof {
        let block = data@.len() as int;
        assert(b * block + block <= 0x1_0000_0000 * 65536) by (nonlinear_arith)
            requires
                0 <= b <= 0xffff_ffff,
                0 <= block <= 65536,
        ;
    }
    match store.put(b as u64 * data.len() as u64, data) {
        Ok(_) => {},
        Err(e) => {
            return Err(e);
        },
    }
    index.add_block(hash, data, b);
    Ok(b)
}

} // verus!
