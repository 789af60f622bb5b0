//! What an LZ4 block is, said of the steps that it is made of.
use super::lz4::{copied, length_at, long_length, lz4_decoded, lz4_from, lz4_match};
use crate::buf::{bytes16, le16_of_bytes16};
use crate::error::Fault;
use crate::math::least;
use vstd::prelude::*;

verus! {

/// A step of a block: bytes that are given, and then bytes that repeat what stands
/// so far in front of them.
pub struct Step {
    pub given: Seq<u8>,
    pub back: u16,
    pub repeated: int,
}

/// What a length takes behind the four bits of the token.
pub open spec fn more_length(n: int) -> Seq<u8>
    decreases n,
{
    if n < 255 {
        seq![n as u8]
    } else {
        seq![255u8] + more_length(n - 255)
    }
}

/// A length behind the token: nothing where four bits have room for it.
pub open spec fn length_bytes(n: int) -> Seq<u8> {
    if n < 15 {
        Seq::empty()
    } else {
        more_length(n - 15)
    }
}

/// The token of a step: four bits for the bytes given, and four for those that
/// are repeated, of which there are four at least.
pub open spec fn token(given: int, repeated: int) -> u8 {
    (16 * least(given, 15) + least(repeated - 4, 15)) as u8
}

impl Step {
    pub open spec fn bytes(self) -> Seq<u8> {
        seq![token(self.given.len() as int, self.repeated)] + length_bytes(self.given.len() as int)
            + self.given + bytes16(self.back) + length_bytes(self.repeated - 4)
    }

    /// What the step makes of what is there already.
    pub open spec fn makes(self, before: Seq<u8>, after: Seq<u8>) -> bool {
        let front = before + self.given;
        &&& 1 <= self.back <= front.len()
        &&& 4 <= self.repeated
        &&& after.len() == front.len() + self.repeated
        &&& after.take(front.len() as int) == front
        &&& forall|i: int|
            front.len() <= i < after.len() ==> #[trigger] after[i] == after[i - self.back]
    }
}

/// The bytes of steps.
pub open spec fn all_bytes(s: Seq<Step>) -> Seq<u8>
    decreases s.len(),
{
    if s.len() == 0 {
        Seq::empty()
    } else {
        s[0].bytes() + all_bytes(s.drop_first())
    }
}

/// The bytes stand at a place.
spec fn stands(x: Seq<u8>, at: int, b: Seq<u8>) -> bool {
    0 <= at && at + b.len() <= x.len() && x.subrange(at, at + b.len()) == b
}

proof fn long_lengths(x: Seq<u8>, c: int, n: int, total: int)
    requires
        0 <= n,
        stands(x, c, more_length(n)),
    ensures
        long_length(x, c, total) == Some((total + n, c + more_length(n).len())),
    decreases n,
{
    let b = more_length(n);
    assert(x.subrange(c, c + b.len())[0] == x[c]);
    if n >= 255 {
        let rest = more_length(n - 255);
        assert(x.subrange(c + 1, c + 1 + rest.len()) =~= b.subrange(1, b.len() as int));
        assert(b.subrange(1, b.len() as int) =~= rest);
        long_lengths(x, c + 1, n - 255, total + 255);
    }
}

proof fn lengths(x: Seq<u8>, c: int, n: int)
    requires
        0 <= n,
        0 <= c,
        stands(x, c, length_bytes(n)),
    ensures
        length_at(x, c, least(n, 15)) == Some((n, c + length_bytes(n).len())),
{
    if n >= 15 {
        long_lengths(x, c, n - 15, 15);
    }
}

proof fn parts_stand(x: Seq<u8>, at: int, a: Seq<u8>, b: Seq<u8>)
    requires
        stands(x, at, a + b),
    ensures
        stands(x, at, a),
        stands(x, at + a.len(), b),
{
    let w = a + b;
    assert(x.subrange(at, at + a.len()) =~= w.subrange(0, a.len() as int));
    assert(w.subrange(0, a.len() as int) =~= a);
    assert(x.subrange(at + a.len(), at + w.len()) =~= w.subrange(a.len() as int, w.len() as int));
    assert(w.subrange(a.len() as int, w.len() as int) =~= b);
}

proof fn repeating_is_copying(front: Seq<u8>, after: Seq<u8>, back: int, n: int)
    requires
        1 <= back <= front.len(),
        0 <= n,
        front.len() + n <= after.len(),
        after.take(front.len() as int) == front,
        forall|i: int| front.len() <= i < after.len() ==> #[trigger] after[i] == after[i - back],
    ensures
        copied(front, back, n) == after.take(front.len() + n),
    decreases n,
{
    if n > 0 {
        repeating_is_copying(front, after, back, n - 1);
        let before = copied(front, back, n - 1);
        let i = front.len() + n - 1;
        assert(after[i] == after[i - back]);
        assert(before[before.len() - back] == after[i - back]);
        assert(after.take(front.len() + n) =~= before.push(after[i]));
    }
}

/// One step of a block is decoded.
proof fn one_step(x: Seq<u8>, c: int, s: Step, before: Seq<u8>, after: Seq<u8>, n: int)
    requires
        0 <= c,
        stands(x, c, s.bytes()),
        s.makes(before, after),
        after.len() <= n,
        x.len() <= usize::MAX,
    ensures
        lz4_from(x, c, before, n) == lz4_from(x, c + s.bytes().len(), after, n),
{
    let given = s.given.len() as int;
    let t = seq![token(given, s.repeated)];
    let l = length_bytes(given);
    let o = bytes16(s.back);
    let m = length_bytes(s.repeated - 4);
    let front = before + s.given;
    parts_stand(x, c, t + l + s.given + o, m);
    parts_stand(x, c, t + l + s.given, o);
    parts_stand(x, c, t + l, s.given);
    parts_stand(x, c, t, l);
    assert(x.subrange(c, c + 1)[0] == x[c]);
    assert(x[c] as int / 16 == least(given, 15));
    assert(x[c] as int % 16 == least(s.repeated - 4, 15));
    let c1 = c + 1 + l.len();
    let c2 = c1 + given;
    lengths(x, c + 1, given);
    assert(x.subrange(c1, c2) == s.given);
    assert(front.len() < n);
    le16_of_bytes16(s.back);
    assert(x.subrange(c2, c2 + 2)[0] == x[c2] && x.subrange(c2, c2 + 2)[1] == x[c2 + 1]);
    assert(x[c2] + 256 * x[c2 + 1] == s.back);
    lengths(x, c2 + 2, s.repeated - 4);
    repeating_is_copying(front, after, s.back as int, s.repeated);
    assert(after.take(after.len() as int) =~= after);
    assert(lz4_from(x, c, before, n) == lz4_match(x, c2, front, n, x[c] as int % 16));
    assert(least(s.repeated, n - front.len()) == s.repeated);
}

/// The end of a block: bytes that are given.
proof fn last_step(x: Seq<u8>, c: int, last: Seq<u8>, before: Seq<u8>)
    requires
        0 <= c,
        stands(
            x,
            c,
            seq![(16 * least(last.len() as int, 15)) as u8] + length_bytes(last.len() as int)
                + last,
        ),
        x.len() <= usize::MAX,
    ensures
        lz4_from(x, c, before, (before + last).len() as int) == Ok::<Seq<u8>, Fault>(
            before + last,
        ),
{
    let n = last.len() as int;
    let t = seq![(16 * least(n, 15)) as u8];
    let l = length_bytes(n);
    parts_stand(x, c, t + l, last);
    parts_stand(x, c, t, l);
    assert(x.subrange(c, c + 1)[0] == x[c]);
    assert(x[c] as int / 16 == least(n, 15));
    lengths(x, c + 1, n);
    if n == 0 {
        assert(before + last =~= before);
    }
}

/// A block decodes to what its steps make: each gives bytes, and then repeats what
/// stands a given number of bytes in front of them; the last one only gives bytes.
/// `outs` is what there is in front of each step, and behind the last one. What
/// stands behind the block does not matter.
pub proof fn blocks_decode_to_their_steps(
    x: Seq<u8>,
    c: int,
    steps: Seq<Step>,
    last: Seq<u8>,
    outs: Seq<Seq<u8>>,
)
    requires
        0 <= c,
        x.len() <= usize::MAX,
        outs.len() == steps.len() + 1,
        forall|k: int|
            0 <= k < steps.len() ==> (#[trigger] steps[k]).makes(outs[k], outs[k + 1]),
        ({
            let b = all_bytes(steps) + (seq![(16 * least(last.len() as int, 15)) as u8]
                + length_bytes(last.len() as int) + last);
            c + b.len() <= x.len() && x.subrange(c, c + b.len()) == b
        }),
    ensures
        lz4_from(x, c, outs[0], (outs.last() + last).len() as int) == Ok::<Seq<u8>, Fault>(
            outs.last() + last,
        ),
    decreases steps.len(),
{
    let end = seq![(16 * least(last.len() as int, 15)) as u8] + length_bytes(last.len() as int)
        + last;
    let n = (outs.last() + last).len() as int;
    if steps.len() == 0 {
        assert(all_bytes(steps) + end =~= end);
        assert(outs.last() == outs[0]);
        last_step(x, c, last, outs[0]);
    } else {
        let rest = steps.drop_first();
        let more = outs.drop_first();
        let s = steps[0];
        assert(all_bytes(steps) + end =~= s.bytes() + (all_bytes(rest) + end));
        parts_stand(x, c, s.bytes(), all_bytes(rest) + end);
        assert forall|k: int| 0 <= k < rest.len() implies (#[trigger] rest[k]).makes(
            more[k],
            more[k + 1],
        ) by {
            assert(rest[k] == steps[k + 1]);
        }
        assert(more.last() == outs.last());
        outputs_grow(steps, outs, 1);
        one_step(x, c, s, outs[0], outs[1], n);
        blocks_decode_to_their_steps(x, c + s.bytes().len(), rest, last, more);
    }
}

proof fn outputs_grow(steps: Seq<Step>, outs: Seq<Seq<u8>>, k: int)
    requires
        outs.len() == steps.len() + 1,
        0 <= k < outs.len(),
        forall|j: int|
            0 <= j < steps.len() ==> (#[trigger] steps[j]).makes(outs[j], outs[j + 1]),
    ensures
        outs[k].len() <= outs.last().len(),
    decreases outs.len() - k,
{
    if k < steps.len() {
        assert(steps[k].makes(outs[k], outs[k + 1]));
        outputs_grow(steps, outs, k + 1);
    }
}

/// A whole block, with nothing in front of it, decodes to what its steps make.
pub proof fn whole_blocks_decode(x: Seq<u8>, steps: Seq<Step>, last: Seq<u8>, outs: Seq<Seq<u8>>)
    requires
        x.len() <= usize::MAX,
        outs.len() == steps.len() + 1,
        outs[0].len() == 0,
        forall|k: int|
            0 <= k < steps.len() ==> (#[trigger] steps[k]).makes(outs[k], outs[k + 1]),
        ({
            let b = all_bytes(steps) + (seq![(16 * least(last.len() as int, 15)) as u8]
                + length_bytes(last.len() as int) + last);
            b.len() <= x.len() && x.subrange(0, b.len() as int) == b
        }),
    ensures
        lz4_decoded(x, (outs.last() + last).len() as int) == Ok::<Seq<u8>, Fault>(
            outs.last() + last,
        ),
{
    assert(outs[0] =~= Seq::empty());
    blocks_decode_to_their_steps(x, 0, steps, last, outs);
}

} // verus!
