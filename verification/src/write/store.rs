//! Places that are written at random.
use super::patch::{patch_views, Patch, PatchView};
use crate::buf::{copy_range, put, zeros};
use crate::error::Error;
use crate::image::{Content, Memory};
use crate::math::greatest;
use vstd::prelude::*;

verus! {

/// Bytes with `v` laid over them from `at` on; a gap is filled with zeros.
pub open spec fn laid(s: Seq<u8>, at: int, v: Seq<u8>) -> Seq<u8> {
    if v.len() == 0 {
        s
    } else {
        Seq::new(
            greatest(s.len() as int, at + v.len()) as nat,
            |i: int|
                if at <= i < at + v.len() {
                    v[i - at]
                } else if i < s.len() {
                    s[i]
                } else {
                    0u8
                },
        )
    }
}

/// The first `n` bytes, with zeros behind them where there are fewer.
pub open spec fn resized(s: Seq<u8>, n: int) -> Seq<u8> {
    Seq::new(
        n as nat,
        |i: int|
            if i < s.len() {
                s[i]
            } else {
                0u8
            },
    )
}

/// Bytes after a list of writes.
pub open spec fn laid_all(s: Seq<u8>, w: Seq<PatchView>) -> Seq<u8>
    decreases w.len(),
{
    if w.len() == 0 {
        s
    } else {
        laid(laid_all(s, w.drop_last()), w.last().at, w.last().data)
    }
}

/// Two lists of writes are one.
pub proof fn laid_all_joins(s: Seq<u8>, a: Seq<PatchView>, b: Seq<PatchView>)
    ensures
        laid_all(laid_all(s, a), b) == laid_all(s, a + b),
    decreases b.len(),
{
    if b.len() == 0 {
        assert(a + b =~= a);
    } else {
        laid_all_joins(s, a, b.drop_last());
        assert((a + b).drop_last() =~= a + b.drop_last());
        assert((a + b).last() == b.last());
    }
}

/// A list of one write.
pub proof fn laid_all_one(s: Seq<u8>, p: PatchView)
    ensures
        laid_all(s, seq![p]) == laid(s, p.at, p.data),
{
    assert(seq![p].drop_last() =~= Seq::empty());
    assert(laid_all(s, Seq::<PatchView>::empty()) == s);
}

/// A place that is written at random.
pub trait ByteStore {
    /// The bytes.
    spec fn content(&self) -> Content;

    /// Whether writing may fail.
    spec fn failing(&self) -> bool;

    /// Writes `data` at `offset`; a gap in front of it reads as zeros.
    fn put(&mut self, offset: u64, data: &[u8]) -> (r: Result<(), Error>)
        ensures
            final(self).failing() == old(self).failing(),
            match r {
                Ok(_) => final(self).content() == laid(old(self).content(), offset as int, data@),
                Err(e) => e is Io && (old(self).failing() || offset + data@.len() > u64::MAX),
            },
    ;

    /// Cuts the bytes off behind the first `n`, or fills them up with zeros.
    fn set_len(&mut self, n: u64) -> (r: Result<(), Error>)
        ensures
            final(self).failing() == old(self).failing(),
            match r {
                Ok(_) => final(self).content() == resized(old(self).content(), n as int),
                Err(e) => e is Io && old(self).failing(),
            },
    ;

    /// Reads bytes that were written.
    fn fetch(&self, offset: u64, len: usize) -> (r: Result<Vec<u8>, Error>)
        requires
            offset + len <= self.content().len(),
        ensures
            match r {
                Ok(v) => v@ == self.content().subrange(offset as int, offset + len),
                Err(e) => e is Io && self.failing(),
            },
    ;
}

fn fill_to(v: &mut Vec<u8>, n: usize)
    ensures
        final(v)@ == (if old(v)@.len() < n {
            old(v)@ + zeros(n - old(v)@.len())
        } else {
            old(v)@
        }),
{
    let ghost before = v@;
    assert(before + zeros(0) =~= before);
    while v.len() < n
        invariant
            before.len() <= v@.len(),
            v@.len() <= n || v@.len() == before.len(),
            v@ == before + zeros(v@.len() - before.len()),
        decreases n - v.len(),
    {
        let ghost k = v@.len() - before.len();
        v.push(0);
        assert(v@ =~= before + zeros(k + 1));
    }
}

impl ByteStore for Memory {
    open spec fn content(&self) -> Seq<u8> {
        self.data@
    }

    open spec fn failing(&self) -> bool {
        usize::MAX < u64::MAX
    }

    fn put(&mut self, offset: u64, data: &[u8]) -> (r: Result<(), Error>) {
        if data.len() == 0 {
            return Ok(());
        }
        let ghost before = self.data@;
        let end = match offset.checked_add(data.len() as u64) {
            Some(n) => n,
            None => {
                return Err(Error::Io);
            },
        };
        if end > usize::MAX as u64 {
            return Err(Error::Io);
        }
        fill_to(&mut self.data, end as usize);
        put(&mut self.data, offset as usize, data);
        assert(self.data@ =~= laid(before, offset as int, data@));
        Ok(())
    }

    fn set_len(&mut self, n: u64) -> (r: Result<(), Error>) {
        if n > usize::MAX as u64 {
            return Err(Error::Io);
        }
        let ghost before = self.data@;
        if n < self.data.len() as u64 {
            self.data.truncate(n as usize);
        } else {
            fill_to(&mut self.data, n as usize);
        }
        assert(self.data@ =~= resized(before, n as int));
        Ok(())
    }

    fn fetch(&self, offset: u64, len: usize) -> (r: Result<Vec<u8>, Error>) {
        let _whole = self.data.len();
        let from = offset as usize;
        Ok(copy_range(&self.data, from, from + len))
    }
}

/// Two writes next to each other are one.
pub proof fn laid_next(s: Seq<u8>, at: int, x: Seq<u8>, y: Seq<u8>)
    requires
        at >= 0,
    ensures
        laid(laid(s, at, x), at + x.len(), y) == laid(s, at, x + y),
{
    assert(x.len() == 0 ==> x + y =~= y);
    assert(y.len() == 0 ==> x + y =~= x);
    assert(laid(laid(s, at, x), at + x.len(), y) =~= laid(s, at, x + y));
}

/// Makes a list of writes.
pub fn put_all<T: ByteStore>(store: &mut T, patches: &Vec<Patch>) -> (r: Result<(), Error>)
    ensures
        final(store).failing() == old(store).failing(),
        match r {
            Ok(_) => final(store).content() == laid_all(
                old(store).content(),
                patch_views(patches@),
            ),
            Err(e) => e is Io && (old(store).failing() || exists|k: int|
                0 <= k < patches@.len() && (#[trigger] patches@[k]).offset
                    + patches@[k].data@.len() > u64::MAX),
        },
{
    let ghost w = patch_views(patches@);
    let ghost first = store.content();
    let mut i: usize = 0;
    assert(w.take(0) =~= Seq::empty());
    while i < patches.len()
        invariant
            i <= patches@.len(),
            w == patch_views(patches@),
            store.failing() == old(store).failing(),
            store.content() == laid_all(first, w.take(i as int)),
            first == old(store).content(),
        decreases patches.len() - i,
    {
        proof {
            let t = w.take(i + 1);
            assert(t.drop_last() =~= w.take(i as int));
            assert(t.last() == patches@[i as int]@);
        }
        match store.put(patches[i].offset, &patches[i].data) {
            Ok(_) => {},
            Err(e) => {
                return Err(e);
            },
        }
        i += 1;
    }
    assert(w.take(i as int) =~= w);
    Ok(())
}

} // verus!
