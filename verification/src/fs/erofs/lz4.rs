//! Decoding of LZ4 blocks.
use crate::error::{fail, seen, Error, Fault};
use crate::math::least;
use crate::text::{dec, push_numeral, push_text, with_number};
use vstd::prelude::*;

verus! {

/// A length that goes on in the bytes from `c` on: the total and where it
/// ends, if the bytes do not run out.
pub open spec fn long_length(x: Seq<u8>, c: int, total: int) -> Option<(int, int)>
    decreases x.len() - c,
{
    if c < 0 || c >= x.len() {
        None
    } else if x[c] != 255 {
        Some((total + x[c], c + 1))
    } else {
        long_length(x, c + 1, total + 255)
    }
}

/// The length that starts with the four bits `first`.
pub open spec fn length_at(x: Seq<u8>, c: int, first: int) -> Option<(int, int)> {
    if first == 15 {
        long_length(x, c, 15)
    } else {
        Some((first, c))
    }
}

/// `out` with `n` bytes appended, each copied from `offset` bytes back.
pub open spec fn copied(out: Seq<u8>, offset: int, n: int) -> Seq<u8>
    decreases n,
{
    if n <= 0 {
        out
    } else {
        let before = copied(out, offset, n - 1);
        before.push(before[before.len() - offset])
    }
}

/// The complaint about a match that reaches in front of the output.
pub open spec fn bad_match(offset: int, output: int, cursor: int) -> Seq<char> {
    "invalid EROFS LZ4 match offset: offset="@ + dec(offset) + " output="@ + dec(output)
        + " cursor="@ + dec(cursor)
}

/// What decoding the sequences from `cursor` on yields, `out` given, until
/// there are `n` bytes.
pub open spec fn lz4_from(x: Seq<u8>, cursor: int, out: Seq<u8>, n: int) -> Result<Seq<u8>, Fault>
    decreases x.len() - cursor,
{
    if out.len() >= n {
        Ok(out)
    } else if cursor < 0 || cursor >= x.len() {
        fail("truncated EROFS LZ4 token"@)
    } else {
        match length_at(x, cursor + 1, x[cursor] as int / 16) {
            None => fail("truncated EROFS LZ4 literal length"@),
            Some((literals, c)) => {
                proof {
                    length_moves_on(x, cursor + 1, x[cursor] as int / 16);
                }
                if c + literals > usize::MAX {
                    fail("EROFS LZ4 literal overflow"@)
                } else if c + literals > x.len() || out.len() + literals > n {
                    fail("invalid EROFS LZ4 literals"@)
                } else {
                    let more = out + x.subrange(c, c + literals);
                    if more.len() == n {
                        Ok(more)
                    } else {
                        lz4_match(x, c + literals, more, n, x[cursor] as int % 16)
                    }
                }
            },
        }
    }
}

/// The same, where a match whose length starts with `first` comes next.
pub open spec fn lz4_match(x: Seq<u8>, c: int, out: Seq<u8>, n: int, first: int) -> Result<
    Seq<u8>,
    Fault,
>
    decreases x.len() - c,
{
    let offset = x[c] + 256 * x[c + 1];
    if c < 0 || c + 2 > x.len() {
        fail("truncated EROFS LZ4 offset"@)
    } else if offset == 0 || offset > out.len() {
        fail(bad_match(offset, out.len() as int, c + 2))
    } else {
        match length_at(x, c + 2, first) {
            None => fail("truncated EROFS LZ4 match length"@),
            Some((len, next)) => {
                proof {
                    length_moves_on(x, c + 2, first);
                }
                lz4_from(x, next, copied(out, offset, least(len + 4, n - out.len())), n)
            },
        }
    }
}

/// What decoding a block of `n` bytes yields.
pub open spec fn lz4_decoded(x: Seq<u8>, n: int) -> Result<Seq<u8>, Fault> {
    lz4_from(x, 0, Seq::empty(), n)
}

/// Reading a length never moves back.
pub proof fn length_moves_on(x: Seq<u8>, c: int, first: int)
    ensures
        length_at(x, c, first) matches Some((total, next)) ==> c <= next && (0 <= first ==> 0
            <= total) && (next <= x.len() || next == c),
{
    if first == 15 {
        long_length_moves_on(x, c, 15);
    }
}

proof fn long_length_moves_on(x: Seq<u8>, c: int, total: int)
    ensures
        long_length(x, c, total) matches Some((t, next)) ==> c < next <= x.len() && t >= total,
    decreases x.len() - c,
{
    if 0 <= c < x.len() && x[c] == 255 {
        long_length_moves_on(x, c + 1, total + 255);
    }
}

proof fn copied_len(out: Seq<u8>, offset: int, n: int)
    requires
        0 <= n,
    ensures
        copied(out, offset, n).len() == out.len() + n,
    decreases n,
{
    if n > 0 {
        copied_len(out, offset, n - 1);
    }
}

/// A block that decodes gives exactly the bytes asked for.
pub proof fn lz4_gives_the_size(x: Seq<u8>, cursor: int, out: Seq<u8>, n: int)
    requires
        out.len() <= n,
    ensures
        lz4_from(x, cursor, out, n) matches Ok(r) ==> r.len() == n,
    decreases x.len() - cursor,
{
    if lz4_from(x, cursor, out, n) is Ok && out.len() < n {
        length_moves_on(x, cursor + 1, x[cursor] as int / 16);
        let (literals, c) = length_at(x, cursor + 1, x[cursor] as int / 16)->Some_0;
        let more = out + x.subrange(c, c + literals);
        if more.len() != n {
            let c = c + literals;
            let first = x[cursor] as int % 16;
            length_moves_on(x, c + 2, first);
            let (len, next) = length_at(x, c + 2, first)->Some_0;
            let offset = x[c] + 256 * x[c + 1];
            let k = least(len + 4, n - more.len());
            copied_len(more, offset, k);
            lz4_gives_the_size(x, next, copied(more, offset, k), n);
        }
    }
}

proof fn long_length_ignores_padding(x: Seq<u8>, pad: Seq<u8>, c: int, total: int)
    ensures
        long_length(x, c, total) is Some ==> long_length(x + pad, c, total) == long_length(
            x,
            c,
            total,
        ),
    decreases x.len() - c,
{
    if 0 <= c < x.len() {
        assert((x + pad)[c] == x[c]);
        if x[c] == 255 {
            long_length_ignores_padding(x, pad, c + 1, total + 255);
        }
    }
}

/// Bytes behind a complete block do not change what it decodes to.
pub proof fn lz4_ignores_padding(x: Seq<u8>, pad: Seq<u8>, cursor: int, out: Seq<u8>, n: int)
    requires
        lz4_from(x, cursor, out, n) is Ok,
    ensures
        lz4_from(x + pad, cursor, out, n) == lz4_from(x, cursor, out, n),
    decreases x.len() - cursor,
{
    let y = x + pad;
    if out.len() < n {
        assert(y[cursor] == x[cursor]);
        let lead = x[cursor] as int / 16;
        length_moves_on(x, cursor + 1, lead);
        long_length_ignores_padding(x, pad, cursor + 1, 15);
        let (literals, c) = length_at(x, cursor + 1, lead)->Some_0;
        assert(length_at(y, cursor + 1, lead) == length_at(x, cursor + 1, lead));
        assert(y.subrange(c, c + literals) =~= x.subrange(c, c + literals));
        let more = out + x.subrange(c, c + literals);
        if more.len() != n {
            let c = c + literals;
            assert(y[c] == x[c] && y[c + 1] == x[c + 1]);
            let first = x[cursor] as int % 16;
            length_moves_on(x, c + 2, first);
            long_length_ignores_padding(x, pad, c + 2, 15);
            assert(length_at(y, c + 2, first) == length_at(x, c + 2, first));
            let (len, next) = length_at(x, c + 2, first)->Some_0;
            let offset = x[c] + 256 * x[c + 1];
            let k = least(len + 4, n - more.len());
            lz4_ignores_padding(x, pad, next, copied(more, offset, k), n);
        }
    }
}

/// Reads a length that starts with `first`; one that does not fit is given
/// as the largest number.
fn read_length(x: &[u8], c: usize, first: u8) -> (r: Option<(usize, usize)>)
    requires
        first <= 15,
        c <= x@.len(),
    ensures
        match r {
            Some((len, next)) => length_at(x@, c as int, first as int) matches Some((total, end))
                && next == end && len == least(total, usize::MAX as int) && next <= x@.len(),
            None => length_at(x@, c as int, first as int) is None,
        },
{
    let mut total: usize = first as usize;
    let mut next: usize = c;
    if first < 15 {
        return Some((total, next));
    }
    let ghost mut exact: int = 15;
    while next < x.len()
        invariant
            next <= x@.len(),
            first == 15,
            exact >= 15,
            total == least(exact, usize::MAX as int),
            long_length(x@, c as int, 15) == long_length(x@, next as int, exact),
        decreases x@.len() - next,
    {
        let value = x[next];
        next += 1;
        total = total.saturating_add(value as usize);
        proof {
            exact = exact + value;
        }
        if value != 255 {
            return Some((total, next));
        }
    }
    None
}

/// Appends `n` bytes, each copied from `offset` bytes back.
fn copy_match(out: &mut Vec<u8>, offset: usize, n: usize)
    requires
        0 < offset <= old(out)@.len(),
        old(out)@.len() + n <= usize::MAX,
    ensures
        final(out)@ == copied(old(out)@, offset as int, n as int),
        final(out)@.len() == old(out)@.len() + n,
{
    let mut i: usize = 0;
    while i < n
        invariant
            i <= n,
            0 < offset <= old(out)@.len(),
            out@ == copied(old(out)@, offset as int, i as int),
            out@.len() == old(out)@.len() + i,
        decreases n - i,
    {
        let value = out[out.len() - offset];
        out.push(value);
        i += 1;
    }
}

/// Decode one LZ4 block of known output size.
pub fn lz4_decode(input: &[u8], output_size: usize) -> (r: Result<Vec<u8>, Error>)
    ensures
        seen(r) == lz4_decoded(input@, output_size as int),
        r matches Ok(v) ==> v@.len() == output_size,
{
    let mut output: Vec<u8> = Vec::new();
    let mut cursor: usize = 0;
    let ghost n = output_size as int;
    while output.len() < output_size
        invariant
            cursor <= input@.len(),
            output@.len() <= output_size,
            n == output_size,
            lz4_decoded(input@, n) == lz4_from(input@, cursor as int, output@, n),
        decreases input@.len() - cursor,
    {
        let ghost start = cursor as int;
        let ghost have = output@;
        if cursor >= input.len() {
            return Err(Error::invalid("truncated EROFS LZ4 token"));
        }
        let token = input[cursor];
        proof {
            length_moves_on(input@, start + 1, token as int / 16);
        }
        let (literals, c) = match read_length(input, cursor + 1, token / 16) {
            Some(v) => v,
            None => {
                return Err(Error::invalid("truncated EROFS LZ4 literal length"));
            },
        };
        let end = match c.checked_add(literals) {
            Some(v) => v,
            None => {
                return Err(Error::invalid("EROFS LZ4 literal overflow"));
            },
        };
        if end > input.len() || literals > output_size - output.len() {
            return Err(Error::invalid("invalid EROFS LZ4 literals"));
        }
        crate::buf::push_bytes(&mut output, &input[c..end]);
        if output.len() == output_size {
            return Ok(output);
        }
        let ghost more = output@;
        assert(lz4_decoded(input@, n) == lz4_match(input@, end as int, more, n, token as int % 16));
        if input.len() < 2 || end > input.len() - 2 {
            return Err(Error::invalid("truncated EROFS LZ4 offset"));
        }
        let offset = crate::buf::get16(input, end) as usize;
        if offset == 0 || offset > output.len() {
            let mut text = with_number(
                "invalid EROFS LZ4 match offset: offset=",
                offset as u64,
                " output=",
            );
            push_numeral(&mut text, output.len() as u64, 10);
            push_text(&mut text, " cursor=");
            push_numeral(&mut text, (end + 2) as u64, 10);
            return Err(Error::Invalid(text));
        }
        proof {
            length_moves_on(input@, end + 2, token as int % 16);
        }
        let (len, next) = match read_length(input, end + 2, token % 16) {
            Some(v) => v,
            None => {
                return Err(Error::invalid("truncated EROFS LZ4 match length"));
            },
        };
        let room = output_size - output.len();
        let count = if len < room && room - len > 4 {
            len + 4
        } else {
            room
        };
        copy_match(&mut output, offset, count);
        cursor = next;
    }
    Ok(output)
}

} // verus!
