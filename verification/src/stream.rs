//! Moving image data in bounded pieces.
use crate::buf::{zeroed, zeros};
use crate::error::{Error, Fault};
use crate::image::{disk_read, ByteSink, ByteSource, Image};
use crate::math::least;
use vstd::prelude::*;

verus! {

/// Bytes moved at once when a file is streamed.
pub const STREAM_CHUNK: usize = 65536;

/// Zero bytes moved at once when a hole is streamed.
pub const ZERO_CHUNK: usize = 8192;

/// The bytes of a range of the image, read piece by piece.
pub open spec fn pieces(d: Seq<u8>, o: int, n: int) -> Result<Seq<u8>, Fault>
    decreases n,
{
    if n <= 0 {
        Ok(Seq::empty())
    } else {
        let k = least(n, STREAM_CHUNK as int);
        match disk_read(d, o, k) {
            Err(e) => Err(e),
            Ok(x) => match pieces(d, o + k, n - k) {
                Err(e) => Err(e),
                Ok(rest) => Ok(x + rest),
            },
        }
    }
}

/// Read piece by piece, a range gives the bytes that stand there.
pub proof fn pieces_are_the_range(d: Seq<u8>, o: int, n: int)
    requires
        0 <= o,
        0 <= n,
    ensures
        pieces(d, o, n) matches Ok(x) ==> if n == 0 {
            x.len() == 0
        } else {
            o + n <= d.len() && x == d.subrange(o, o + n)
        },
        o + n <= d.len() <= u64::MAX ==> pieces(d, o, n) is Ok,
    decreases n,
{
    if n > 0 {
        let k = least(n, STREAM_CHUNK as int);
        pieces_are_the_range(d, o + k, n - k);
        if pieces(d, o, n) is Ok {
            let rest = pieces(d, o + k, n - k)->Ok_0;
            assert(d.subrange(o, o + k) + rest =~= d.subrange(o, o + n));
        }
    }
}

/// Streams a range of the image piece by piece.
pub fn stream_range<S: ByteSource, O: ByteSink>(
    image: &Image<S>,
    offset: u64,
    len: u64,
    out: &mut O,
) -> (r: Result<(), Error>)
    requires
        image.wf(),
    ensures
        final(out).full() == old(out).full(),
        match r {
            Ok(_) => pieces(image.disk(), offset as int, len as int) matches Ok(x) && final(
            out).written() == old(out).written() + x,
            Err(e) => pieces(image.disk(), offset as int, len as int) == Err::<Seq<u8>, Fault>(e@)
                || (e is Io && (image.faulty() || old(out).full())),
        },
{
    let ghost d = image.disk();
    let ghost whole = pieces(d, offset as int, len as int);
    let ghost mut got: Seq<u8> = Seq::empty();
    let mut done: u64 = 0;
    assert(old(out).written() + got =~= old(out).written());
    proof {
        if let Ok(rest) = whole {
            assert(got + rest =~= rest);
        }
    }
    while done < len
        invariant
            done <= len,
            image.wf(),
            d == image.disk(),
            whole == pieces(d, offset as int, len as int),
            out.full() == old(out).full(),
            out.written() == old(out).written() + got,
            whole == (match pieces(d, offset + done, len - done) {
                Err(e) => Err(e),
                Ok(rest) => Ok(got + rest),
            }),
        decreases len - done,
    {
        let rest = len - done;
        let n: usize = if rest < STREAM_CHUNK as u64 {
            rest as usize
        } else {
            STREAM_CHUNK
        };
        let at = match offset.checked_add(done) {
            Some(v) => v,
            None => {
                return Err(Error::invalid("read range overflow"));
            },
        };
        let data = image.read_at(at, n)?;
        match out.write(&data) {
            Ok(_) => {},
            Err(e) => {
                return Err(e);
            },
        }
        proof {
            let before = got;
            got = before + data@;
            assert(out.written() =~= old(out).written() + got);
            if let Ok(tail) = pieces(d, offset + done + n, len - done - n) {
                assert(before + (data@ + tail) =~= got + tail);
            }
        }
        done = done + n as u64;
    }
    assert(got + Seq::<u8>::empty() =~= got);
    Ok(())
}

/// Streams zero bytes.
pub fn write_zeroes<O: ByteSink>(out: &mut O, count: u64) -> (r: Result<(), Error>)
    ensures
        final(out).full() == old(out).full(),
        match r {
            Ok(_) => final(out).written() == old(out).written() + zeros(count as int),
            Err(e) => e is Io && old(out).full(),
        },
{
    let block = zeroed(ZERO_CHUNK);
    let mut done: u64 = 0;
    assert(old(out).written() + zeros(0) =~= old(out).written());
    while done < count
        invariant
            done <= count,
            block@ == zeros(ZERO_CHUNK as int),
            out.full() == old(out).full(),
            out.written() == old(out).written() + zeros(done as int),
        decreases count - done,
    {
        let rest = count - done;
        let n: usize = if rest < ZERO_CHUNK as u64 {
            rest as usize
        } else {
            ZERO_CHUNK
        };
        match out.write(&block[0..n]) {
            Ok(_) => {},
            Err(e) => {
                return Err(e);
            },
        }
        assert(out.written() =~= old(out).written() + zeros(done + n));
        done = done + n as u64;
    }
    Ok(())
}

} // verus!
