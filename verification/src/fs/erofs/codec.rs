//! Compression and decompression of physical clusters.
use super::lz4::{lz4_decode, lz4_decoded, lz4_ignores_padding};
use crate::error::{fail, seen, Error, Fault};
use crate::text::{chars_of, dec, same, string_of, with_number, with_text};
use vstd::prelude::*;

verus! {

// ---------------------------------------------------------------------
// What the compression libraries are trusted for
// ---------------------------------------------------------------------
/// The LZ4 block that `lz4_flex` makes of `input`.
pub uninterp spec fn lz4_packed(input: Seq<u8>) -> Seq<u8>;

/// The raw DEFLATE stream that `miniz_oxide` makes of `input` at `level`.
pub uninterp spec fn deflate_packed(input: Seq<u8>, level: u8) -> Seq<u8>;

/// What `miniz_oxide` makes of a raw DEFLATE stream when it may give at
/// most `limit` bytes: the data, or the description of its error.
pub uninterp spec fn inflated(input: Seq<u8>, limit: usize) -> Result<Seq<u8>, Seq<char>>;

/// What `ruzstd` makes of a Zstandard frame, cut off after `limit` bytes:
/// the data, the description of an error in the frame header, or nothing
/// where the stream fails later.
pub uninterp spec fn unzstd(input: Seq<u8>, limit: u64) -> Result<Seq<u8>, Option<Seq<char>>>;

/// The block decodes to the input.
pub open spec fn is_lz4_block_of(packed: Seq<u8>, input: Seq<u8>) -> bool {
    lz4_decoded(packed, input.len() as int) == Ok::<Seq<u8>, Fault>(input)
}

/// The stream decodes to the input, where there is any, with a limit of its
/// size and whatever stands behind the stream.
pub open spec fn is_deflate_stream_of(packed: Seq<u8>, input: Seq<u8>) -> bool {
    input.len() > 0 ==> forall|pad: Seq<u8>|
        inflated(#[trigger] (packed + pad), input.len() as usize) == Ok::<Seq<u8>, Seq<char>>(input)
}

/// `lz4_flex::block::compress` gives a block in the LZ4 block format, which
/// decodes to the input. The block itself has a name and nothing more.
#[verifier::external_body]
fn lz4_compress(input: &[u8]) -> (packed: Vec<u8>)
    ensures
        packed@ == lz4_packed(input@),
        is_lz4_block_of(packed@, input@),
{
    lz4_flex::block::compress(input)
}

/// `miniz_oxide::deflate::compress_to_vec` gives a raw DEFLATE stream. Of a
/// non-empty input, `decompress_to_vec_with_limit` gives the input back with
/// a limit of its size, whatever stands behind the end of the stream. The
/// stream itself has a name and nothing more.
#[verifier::external_body]
fn deflate_compress(input: &[u8], level: u8) -> (packed: Vec<u8>)
    requires
        level <= 10,
    ensures
        packed@ == deflate_packed(input@, level),
        is_deflate_stream_of(packed@, input@),
{
    miniz_oxide::deflate::compress_to_vec(input, level)
}

/// `miniz_oxide::inflate::decompress_to_vec_with_limit` decodes a raw
/// DEFLATE stream and never gives more than `limit` bytes. The data, and the
/// description of an error, have a name and nothing more.
#[verifier::external_body]
fn inflate(input: &[u8], limit: usize) -> (r: Result<Vec<u8>, String>)
    ensures
        match r {
            Ok(data) => inflated(input@, limit) == Ok::<Seq<u8>, Seq<char>>(data@) && data@.len()
                <= limit,
            Err(text) => inflated(input@, limit) == Err::<Seq<u8>, Seq<char>>(text@),
        },
{
    miniz_oxide::inflate::decompress_to_vec_with_limit(input, limit).map_err(|e| format!("{e:?}"))
}

/// `ruzstd::decoding::StreamingDecoder` decodes a Zstandard frame; reading
/// stops after `limit` bytes. The data, and the description of an error in
/// the frame header, have a name and nothing more.
#[verifier::external_body]
fn zstd_decode(input: &[u8], limit: u64) -> (r: Result<Vec<u8>, Option<String>>)
    ensures
        match r {
            Ok(data) => unzstd(input@, limit) == Ok::<Seq<u8>, Option<Seq<char>>>(data@)
                && data@.len() <= limit,
            Err(Some(text)) => unzstd(input@, limit) == Err::<Seq<u8>, Option<Seq<char>>>(
                Some(text@),
            ),
            Err(None) => unzstd(input@, limit) == Err::<Seq<u8>, Option<Seq<char>>>(None),
        },
{
    let decoder = ruzstd::decoding::StreamingDecoder::new(std::io::Cursor::new(input)).map_err(
        |e| Some(format!("{e:?}")),
    )?;
    let mut data: Vec<u8> = Vec::new();
    let mut limited = std::io::Read::take(decoder, limit);
    std::io::Read::read_to_end(&mut limited, &mut data).map_err(|_| None)?;
    Ok(data)
}

// ---------------------------------------------------------------------
// Decompression
// ---------------------------------------------------------------------
/// The bytes from the first one on that is not zero, if there is one.
pub open spec fn without_padding(x: Seq<u8>) -> Option<Seq<u8>>
    decreases x.len(),
{
    if x.len() == 0 {
        None
    } else if x[0] != 0 {
        Some(x)
    } else {
        without_padding(x.drop_first())
    }
}

/// What decoding DEFLATE came to, turned into the result for `n` bytes.
pub open spec fn inflate_result(r: Result<Seq<u8>, Seq<char>>, n: int) -> Result<Seq<u8>, Fault> {
    match r {
        Err(text) => fail("invalid EROFS DEFLATE: "@ + text + ""@),
        Ok(data) => if data.len() != n {
            fail("EROFS DEFLATE output size mismatch"@)
        } else {
            Ok(data)
        },
    }
}

/// What decoding Zstandard came to, turned into the result for `n` bytes.
pub open spec fn zstd_result(r: Result<Seq<u8>, Option<Seq<char>>>, n: int) -> Result<
    Seq<u8>,
    Fault,
> {
    match r {
        Err(Some(text)) => fail("invalid EROFS ZSTD: "@ + text + ""@),
        Err(None) => Err(Fault::Io),
        Ok(data) => if data.len() != n {
            fail("EROFS ZSTD output size mismatch"@)
        } else {
            Ok(data)
        },
    }
}

/// The limit under which Zstandard data of `n` bytes is decoded.
pub open spec fn zstd_limit(n: int) -> u64 {
    if n < u64::MAX {
        (n + 1) as u64
    } else {
        u64::MAX
    }
}

/// What decoding the stream `x` of a cluster of `n` bytes yields.
pub open spec fn decoded(x: Seq<u8>, n: int, algorithm: u8) -> Result<Seq<u8>, Fault> {
    if algorithm == 0 {
        lz4_decoded(x, n)
    } else if algorithm == 2 {
        inflate_result(inflated(x, n as usize), n)
    } else if algorithm == 3 {
        zstd_result(unzstd(x, zstd_limit(n)), n)
    } else if algorithm == 1 {
        fail("EROFS LZMA is not supported by this build"@)
    } else {
        fail("unsupported EROFS compression algorithm "@ + dec(algorithm as int) + ""@)
    }
}

/// What decompressing a cluster of `n` bytes yields.
pub open spec fn decompressed(x: Seq<u8>, n: int, algorithm: u8, zero_padding: bool) -> Result<
    Seq<u8>,
    Fault,
> {
    if zero_padding {
        match without_padding(x) {
            None => fail("EROFS compressed stream contains only padding"@),
            Some(y) => decoded(y, n, algorithm),
        }
    } else {
        decoded(x, n, algorithm)
    }
}

/// Checks decoded DEFLATE data against the expected size.
pub fn check_inflated(r: Result<Vec<u8>, String>, output_size: usize) -> (out: Result<
    Vec<u8>,
    Error,
>)
    ensures
        seen(out) == inflate_result(
            match r {
                Ok(data) => Ok(data@),
                Err(text) => Err(text@),
            },
            output_size as int,
        ),
{
    match r {
        Err(text) => Err(
            Error::Invalid(with_text("invalid EROFS DEFLATE: ", text.as_str(), "")),
        ),
        Ok(data) => if data.len() != output_size {
            Err(Error::invalid("EROFS DEFLATE output size mismatch"))
        } else {
            Ok(data)
        },
    }
}

/// Checks decoded Zstandard data against the expected size.
pub fn check_unzstd(r: Result<Vec<u8>, Option<String>>, output_size: usize) -> (out: Result<
    Vec<u8>,
    Error,
>)
    ensures
        seen(out) == zstd_result(
            match r {
                Ok(data) => Ok(data@),
                Err(Some(text)) => Err(Some(text@)),
                Err(None) => Err(None),
            },
            output_size as int,
        ),
{
    match r {
        Err(Some(text)) => Err(
            Error::Invalid(with_text("invalid EROFS ZSTD: ", text.as_str(), "")),
        ),
        Err(None) => Err(Error::Io),
        Ok(data) => if data.len() != output_size {
            Err(Error::invalid("EROFS ZSTD output size mismatch"))
        } else {
            Ok(data)
        },
    }
}

fn decode(input: &[u8], output_size: usize, algorithm: u8) -> (r: Result<Vec<u8>, Error>)
    ensures
        seen(r) == decoded(input@, output_size as int, algorithm),
        r matches Ok(v) ==> v@.len() == output_size,
{
    if algorithm == 0 {
        lz4_decode(input, output_size)
    } else if algorithm == 2 {
        check_inflated(inflate(input, output_size), output_size)
    } else if algorithm == 3 {
        let limit = (output_size as u64).saturating_add(1);
        check_unzstd(zstd_decode(input, limit), output_size)
    } else if algorithm == 1 {
        Err(Error::invalid("EROFS LZMA is not supported by this build"))
    } else {
        Err(
            Error::Invalid(
                with_number("unsupported EROFS compression algorithm ", algorithm as u64, ""),
            ),
        )
    }
}

/// Decompress one physical cluster to exactly `output_size` bytes.
pub fn decompress(input: &[u8], output_size: usize, algorithm: u8, zero_padding: bool) -> (r:
    Result<Vec<u8>, Error>)
    ensures
        seen(r) == decompressed(input@, output_size as int, algorithm, zero_padding),
        r matches Ok(v) ==> v@.len() == output_size,
{
    if !zero_padding {
        return decode(input, output_size, algorithm);
    }
    let mut start: usize = 0;
    assert(input@.skip(0) =~= input@);
    while start < input.len() && input[start] == 0
        invariant
            start <= input@.len(),
            without_padding(input@) == without_padding(input@.skip(start as int)),
        decreases input@.len() - start,
    {
        proof {
            let t = input@.skip(start as int);
            assert(t[0] == input@[start as int]);
            assert(t.drop_first() =~= input@.skip(start + 1));
        }
        start += 1;
    }
    if start == input.len() {
        return Err(Error::invalid("EROFS compressed stream contains only padding"));
    }
    proof {
        let t = input@.skip(start as int);
        assert(t[0] == input@[start as int]);
        assert(input@.subrange(start as int, input@.len() as int) =~= t);
    }
    decode(&input[start..input.len()], output_size, algorithm)
}

// ---------------------------------------------------------------------
// Compression
// ---------------------------------------------------------------------
/// Compression algorithm selected by `--compress`.
#[derive(Debug, Clone, Copy, PartialEq, Eq, Structural)]
pub enum Algo {
    Off,
    Lz4,
    Deflate,
}

impl Default for Algo {
    fn default() -> (a: Algo)
        ensures
            a == Algo::Off,
    {
        Algo::Off
    }
}

/// The text with its ASCII letters in lower case.
pub open spec fn lower(s: Seq<char>) -> Seq<char> {
    s.map_values(|c: char| lower_char(c))
}

/// The letter in lower case, where it is an ASCII letter.
pub open spec fn lower_char(c: char) -> char {
    if 'A' <= c <= 'Z' {
        (c as int + 32) as char
    } else {
        c
    }
}

/// The text with its ASCII letters in lower case.
pub fn to_lower(s: &str) -> (r: String)
    ensures
        r@ == lower(s@),
{
    let v = chars_of(s);
    let mut out: Vec<char> = Vec::new();
    let mut i: usize = 0;
    while i < v.len()
        invariant
            i <= v@.len(),
            v@ == s@,
            out@ == lower(s@).take(i as int),
        decreases v@.len() - i,
    {
        let c = v[i];
        let low = if 'A' <= c && c <= 'Z' {
            ((c as u32 as u8) + 32) as char
        } else {
            c
        };
        proof {
            assert(lower(s@).take(i + 1) =~= lower(s@).take(i as int).push(lower(s@)[i as int]));
        }
        out.push(low);
        i += 1;
    }
    assert(lower(s@).take(i as int) =~= lower(s@));
    string_of(&out)
}

impl Algo {
    /// The algorithm that a value of `--compress` names.
    pub open spec fn named(value: Seq<char>) -> Result<Algo, Fault> {
        let v = lower(value);
        if v == "none"@ || v == "off"@ || v == "no"@ {
            Ok(Algo::Off)
        } else if v == "lz4"@ {
            Ok(Algo::Lz4)
        } else if v == "deflate"@ || v == "zlib"@ {
            Ok(Algo::Deflate)
        } else {
            fail("invalid --compress value: "@ + v + " (use lz4|deflate|none)"@)
        }
    }

    /// The algorithm of that name.
    pub fn parse(value: &str) -> (r: Result<Algo, Error>)
        ensures
            match r {
                Ok(a) => Algo::named(value@) == Ok::<Algo, Fault>(a),
                Err(e) => Algo::named(value@) == Err::<Algo, Fault>(e@),
            },
    {
        let low = to_lower(value);
        let v = low.as_str();
        if same(v, "none") || same(v, "off") || same(v, "no") {
            Ok(Algo::Off)
        } else if same(v, "lz4") {
            Ok(Algo::Lz4)
        } else if same(v, "deflate") || same(v, "zlib") {
            Ok(Algo::Deflate)
        } else {
            Err(
                Error::Invalid(
                    with_text("invalid --compress value: ", v, " (use lz4|deflate|none)"),
                ),
            )
        }
    }

    /// The on-disk number of the algorithm.
    pub open spec fn id(self) -> u8 {
        match self {
            Algo::Off => 0,
            Algo::Lz4 => 0,
            Algo::Deflate => 2,
        }
    }

    /// Low-nibble on-disk algorithm id.
    pub fn nibble(self) -> (n: u8)
        ensures
            n == self.id(),
    {
        match self {
            Algo::Off => 0,
            Algo::Lz4 => 0,
            Algo::Deflate => 2,
        }
    }

    /// Whether anything is compressed.
    pub fn is_some(self) -> (b: bool)
        ensures
            b == (self != Algo::Off),
    {
        match self {
            Algo::Off => false,
            _ => true,
        }
    }
}

/// The compressed form of a span, if it is smaller than the span.
pub open spec fn compressed(algo: Algo, input: Seq<u8>) -> Option<Seq<u8>> {
    let packed = match algo {
        Algo::Off => input,
        Algo::Lz4 => lz4_packed(input),
        Algo::Deflate => deflate_packed(input, 6),
    };
    if input.len() > 0 && packed.len() < input.len() {
        Some(packed)
    } else {
        None
    }
}

/// Keeps a compressed form that is smaller than what it stands for.
pub fn if_smaller(packed: Vec<u8>, input: &[u8]) -> (r: Option<Vec<u8>>)
    ensures
        r == (if packed@.len() < input@.len() {
            Some(packed)
        } else {
            None
        }),
{
    if packed.len() < input.len() {
        Some(packed)
    } else {
        None
    }
}

/// Compress one span. `None` means that compression does not pay off; the
/// caller then stores the span plain. What is given decompresses to the
/// span, whatever pads its block.
pub fn compress_pcluster(algo: Algo, input: &[u8]) -> (r: Option<Vec<u8>>)
    ensures
        match r {
            Some(v) => {
                &&& compressed(algo, input@) == Some(v@)
                &&& 0 < input@.len()
                &&& v@.len() < input@.len()
                &&& forall|pad: Seq<u8>|
                    decompressed(
                        #[trigger] (v@ + pad),
                        input@.len() as int,
                        algo.id(),
                        false,
                    ) == Ok::<Seq<u8>, Fault>(input@)
            },
            None => compressed(algo, input@) is None,
        },
{
    if input.len() == 0 {
        return None;
    }
    match algo {
        Algo::Off => None,
        Algo::Lz4 => {
            let packed = lz4_compress(input);
            proof {
                let n = input@.len() as int;
                assert forall|pad: Seq<u8>|
                    decompressed(#[trigger] (packed@ + pad), n, algo.id(), false) == Ok::<
                        Seq<u8>,
                        Fault,
                    >(input@) by {
                    lz4_ignores_padding(packed@, pad, 0, Seq::empty(), n);
                }
            }
            if_smaller(packed, input)
        },
        Algo::Deflate => {
            let packed = deflate_compress(input, 6);
            if_smaller(packed, input)
        },
    }
}

} // verus!
