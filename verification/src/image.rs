//! Unified image container: raw or Android sparse.
//!
//! The reading side validates strictly (sizes of RAW, FILL, DONT_CARE and
//! CRC32 chunks); the writing side encodes a raw image as a sparse one.
use crate::buf::{get16, get32, le16, le32, push_bytes, zeroed, zeros};
use crate::error::{fail, told, Error, Fault};
use crate::text::{dec, digit, hex, push_numeral, push_text, with_number};
use vstd::prelude::*;

verus! {

/// The magic number of a sparse container.
pub const SPARSE_MAGIC: u32 = 0xed26_ff3a;

/// A chunk that holds its bytes.
pub const CHUNK_RAW: u16 = 0xcac1;

/// A chunk that repeats four bytes.
pub const CHUNK_FILL: u16 = 0xcac2;

/// A chunk without content.
pub const CHUNK_DONT_CARE: u16 = 0xcac3;

/// A chunk that holds a checksum.
pub const CHUNK_CRC32: u16 = 0xcac4;

/// Max blocks per single RAW chunk (payload stays below `u32`).
pub const SPARSE_MAX_RAW_RUN: u64 = 16384;

/// Bytes moved at once when a RAW payload is streamed.
pub const COPY_QUANTUM: usize = 262144;

/// Bytes moved at once when a whole image is streamed.
pub const STREAM_QUANTUM: usize = 1048576;

// ---------------------------------------------------------------------
// Where bytes come from and go to
// ---------------------------------------------------------------------
/// Bytes as contracts speak of them.
pub type Content = Seq<u8>;

/// Random access to the bytes of a container.
pub trait ByteSource {
    /// The bytes.
    spec fn bytes(&self) -> Content;

    /// Whether a read inside the bytes may fail.
    spec fn faulty(&self) -> bool;

    /// The number of bytes.
    fn len(&self) -> (n: u64)
        ensures
            n == self.bytes().len(),
    ;

    /// `len` bytes from `offset` on.
    fn read(&self, offset: u64, len: usize) -> (r: Result<Vec<u8>, Error>)
        ensures
            match r {
                Ok(v) => offset + len <= self.bytes().len() <= u64::MAX && v@ == self.bytes().subrange(
                    offset as int,
                    offset + len,
                ),
                Err(e) => e is Io && (offset + len > self.bytes().len() || self.faulty()),
            },
    ;
}

/// A place to which bytes are appended.
pub trait ByteSink {
    /// The bytes appended so far.
    spec fn written(&self) -> Content;

    /// Whether appending may fail.
    spec fn full(&self) -> bool;

    /// Appends `data`.
    fn write(&mut self, data: &[u8]) -> (r: Result<(), Error>)
        ensures
            final(self).full() == old(self).full(),
            match r {
                Ok(_) => final(self).written() == old(self).written() + data@,
                Err(e) => e is Io && old(self).full(),
            },
    ;
}

/// Bytes held in memory.
pub struct Memory {
    pub data: Vec<u8>,
}

impl ByteSource for Memory {
    open spec fn bytes(&self) -> Seq<u8> {
        self.data@
    }

    open spec fn faulty(&self) -> bool {
        false
    }

    fn len(&self) -> (n: u64) {
        self.data.len() as u64
    }

    fn read(&self, offset: u64, len: usize) -> (r: Result<Vec<u8>, Error>) {
        if len as u64 <= self.data.len() as u64 && offset <= self.data.len() as u64 - len as u64 {
            let from = offset as usize;
            Ok(crate::buf::copy_range(&self.data, from, from + len))
        } else {
            Err(Error::Io)
        }
    }
}

impl ByteSink for Memory {
    open spec fn written(&self) -> Seq<u8> {
        self.data@
    }

    open spec fn full(&self) -> bool {
        false
    }

    fn write(&mut self, data: &[u8]) -> (r: Result<(), Error>) {
        push_bytes(&mut self.data, data);
        Ok(())
    }
}

// ---------------------------------------------------------------------
// The sparse container: reading
// ---------------------------------------------------------------------
/// A chunk of a sparse container.
#[derive(Debug, Clone)]
pub struct SparseChunk {
    pub kind: u16,
    pub logical_start: u64,
    pub logical_len: u64,
    pub file_offset: u64,
    pub fill_value: [u8; 4],
}

/// The mathematical counterpart of [`SparseChunk`].
#[verifier::ext_equal]
pub struct ChunkView {
    pub kind: u16,
    pub start: int,
    pub len: int,
    pub offset: int,
    pub fill: Seq<u8>,
}

impl View for SparseChunk {
    type V = ChunkView;

    open spec fn view(&self) -> ChunkView {
        ChunkView {
            kind: self.kind,
            start: self.logical_start as int,
            len: self.logical_len as int,
            offset: self.file_offset as int,
            fill: self.fill_value@,
        }
    }
}

/// The views of a sequence of chunks.
pub open spec fn chunk_views(s: Seq<SparseChunk>) -> Seq<ChunkView> {
    s.map_values(|c: SparseChunk| c@)
}

/// The chunks of a sparse container.
#[derive(Debug)]
pub struct SparseImage {
    pub block_size: u64,
    pub logical_size: u64,
    pub chunks: Vec<SparseChunk>,
}

/// The mathematical counterpart of [`SparseImage`].
#[verifier::ext_equal]
pub struct SparseView {
    pub block_size: int,
    pub size: int,
    pub chunks: Seq<ChunkView>,
}

impl View for SparseImage {
    type V = SparseView;

    open spec fn view(&self) -> SparseView {
        SparseView {
            block_size: self.block_size as int,
            size: self.logical_size as int,
            chunks: chunk_views(self.chunks@),
        }
    }
}

/// Four hexadecimal digits.
pub open spec fn hex4(n: int) -> Seq<char> {
    seq![digit(n / 4096 % 16), digit(n / 256 % 16), digit(n / 16 % 16), digit(n % 16)]
}

/// A complaint about the chunk of the given index.
pub open spec fn chunk_complaint(index: int, what: Seq<char>) -> Seq<char> {
    "chunk "@ + dec(index) + what
}

/// The chunk whose header stands at `pos`, and where the next one stands.
pub open spec fn chunk_at(
    c: Seq<u8>,
    pos: int,
    index: int,
    header: int,
    block_size: int,
    start: int,
) -> Result<(ChunkView, int), Fault> {
    let kind = le16(c, pos);
    let blocks = le32(c, pos + 4);
    let data = le32(c, pos + 8) - header;
    let len = blocks * block_size;
    let next = pos + header + data;
    if pos + header > c.len() {
        Err(Fault::Io)
    } else if blocks == 0 {
        fail(chunk_complaint(index, " has no blocks"@))
    } else if data < 0 {
        fail(chunk_complaint(index, " has invalid size"@))
    } else if kind == CHUNK_FILL && data != 4 {
        fail(chunk_complaint(index, " has invalid FILL size"@))
    } else if kind == CHUNK_FILL && next > c.len() {
        Err(Fault::Io)
    } else if kind == CHUNK_RAW && data != len {
        fail(chunk_complaint(index, " has invalid RAW size"@))
    } else if kind == CHUNK_DONT_CARE && data != 0 {
        fail(chunk_complaint(index, " has invalid size"@))
    } else if kind == CHUNK_CRC32 && data != 0 && data != 4 {
        fail(chunk_complaint(index, " has invalid size"@))
    } else if !known_kind(kind) {
        fail("chunk "@ + dec(index) + " type 0x"@ + hex4(kind as int) + " is unsupported"@)
    } else if next > u64::MAX {
        Err(Fault::Io)
    } else {
        Ok(
            (
                ChunkView {
                    kind,
                    start,
                    len,
                    offset: pos + header,
                    fill: if kind == CHUNK_FILL {
                        c.subrange(pos + header, pos + header + 4)
                    } else {
                        zeros(4)
                    },
                },
                next,
            ),
        )
    }
}

/// Whether a chunk of this kind can be read.
pub open spec fn known_kind(kind: u16) -> bool {
    kind == CHUNK_RAW || kind == CHUNK_FILL || kind == CHUNK_DONT_CARE || kind == CHUNK_CRC32
}

/// The chunks from `index` on, with the logical size that they end at.
pub open spec fn chunks_from(
    c: Seq<u8>,
    pos: int,
    index: int,
    count: int,
    header: int,
    block_size: int,
    start: int,
) -> Result<(Seq<ChunkView>, int), Fault>
    decreases count - index,
{
    if index >= count {
        Ok((Seq::empty(), start))
    } else {
        match chunk_at(c, pos, index, header, block_size, start) {
            Err(e) => Err(e),
            Ok((chunk, next)) => if start + chunk.len > u64::MAX {
                fail("logical image size overflow"@)
            } else {
                match chunks_from(c, next, index + 1, count, header, block_size, start + chunk.len) {
                    Err(e) => Err(e),
                    Ok((rest, end)) => Ok((seq![chunk] + rest, end)),
                }
            },
        }
    }
}

/// Whether the header of a sparse container is one that can be read.
pub open spec fn header_supported(c: Seq<u8>) -> bool {
    &&& le16(c, 4) == 1
    &&& le16(c, 8) >= 28
    &&& 12 <= le16(c, 10) <= 1024
    &&& 0 < le32(c, 12) <= 64 * 1024 * 1024
}

/// The sparse image that the container `c` describes.
pub open spec fn sparse_of(c: Seq<u8>) -> Result<SparseView, Fault> {
    let block_size = le32(c, 12) as int;
    let expected = le32(c, 16) * block_size;
    if c.len() < 28 {
        Err(Fault::Io)
    } else if !header_supported(c) {
        fail("unsupported sparse header"@)
    } else {
        match chunks_from(
            c,
            le16(c, 8) as int,
            0,
            le32(c, 20) as int,
            le16(c, 10) as int,
            block_size,
            0,
        ) {
            Err(e) => Err(e),
            Ok((chunks, end)) => if end != expected {
                fail("chunk blocks do not match header"@)
            } else {
                Ok(SparseView { block_size, size: expected, chunks })
            },
        }
    }
}

/// The chunks follow one another without gaps from `from` to `to`.
pub open spec fn contiguous(s: Seq<ChunkView>, from: int, to: int) -> bool
    decreases s.len(),
{
    if s.len() == 0 {
        from == to
    } else {
        &&& s[0].start == from
        &&& s[0].len > 0
        &&& s[0].offset >= 0
        &&& s[0].fill.len() == 4
        &&& known_kind(s[0].kind)
        &&& s[0].kind == CHUNK_RAW ==> s[0].offset + s[0].len <= u64::MAX
        &&& contiguous(s.drop_first(), from + s[0].len, to)
    }
}

impl SparseView {
    /// The chunks cover the logical image.
    pub open spec fn wf(self) -> bool {
        &&& 0 <= self.size <= u64::MAX
        &&& contiguous(self.chunks, 0, self.size)
    }

    /// The index of the chunk that holds position `p`.
    pub open spec fn holder(self, p: int) -> int {
        choose|i: int|
            0 <= i < self.chunks.len() && (#[trigger] self.chunks[i]).start <= p
                < self.chunks[i].start + self.chunks[i].len
    }

    /// Whether the container lacks the byte of position `p`.
    pub open spec fn lacks(self, c: Seq<u8>, p: int) -> bool {
        let chunk = self.chunks[self.holder(p)];
        chunk.kind == CHUNK_RAW && chunk.offset + (p - chunk.start) >= c.len()
    }

    /// The logical content of the container `c`.
    pub open spec fn content(self, c: Seq<u8>) -> Seq<u8> {
        Seq::new(self.size as nat, |p: int| chunk_byte(c, self.chunks[self.holder(p)], p))
    }

    /// What reading `n` logical bytes from `o` on yields.
    pub open spec fn read(self, c: Seq<u8>, o: int, n: int) -> Result<Seq<u8>, Fault> {
        if exists|p: int| o <= p < o + n && p < self.size && self.lacks(c, p) {
            Err(Fault::Io)
        } else if n > 0 && o + n > self.size {
            fail(
                "no sparse chunk for offset 0x"@ + hex(
                    if o > self.size {
                        o
                    } else {
                        self.size
                    },
                ),
            )
        } else {
            Ok(Seq::new(n as nat, |i: int| self.content(c)[o + i]))
        }
    }
}

/// The byte at position `p` of a chunk that holds it.
pub open spec fn chunk_byte(c: Seq<u8>, chunk: ChunkView, p: int) -> u8 {
    if chunk.kind == CHUNK_RAW {
        c[chunk.offset + (p - chunk.start)]
    } else if chunk.kind == CHUNK_FILL {
        chunk.fill[p % 4]
    } else {
        0
    }
}

/// Contiguous chunks lie in order between the two ends.
proof fn contiguous_bounds(s: Seq<ChunkView>, from: int, to: int)
    requires
        contiguous(s, from, to),
    ensures
        from <= to,
        forall|i: int|
            0 <= i < s.len() ==> {
                &&& from <= (#[trigger] s[i]).start
                &&& s[i].len > 0
                &&& s[i].offset >= 0
                &&& s[i].fill.len() == 4
                &&& known_kind(s[i].kind)
                &&& s[i].kind == CHUNK_RAW ==> s[i].offset + s[i].len <= u64::MAX
                &&& s[i].start + s[i].len <= to
            },
        forall|i: int, j: int|
            0 <= i < j < s.len() ==> (#[trigger] s[i]).start + s[i].len <= (#[trigger] s[j]).start,
        s.len() > 0 ==> s[0].start == from && s.last().start + s.last().len == to,
        s.len() == 0 ==> from == to,
    decreases s.len(),
{
    if s.len() > 0 {
        let rest = s.drop_first();
        contiguous_bounds(rest, from + s[0].len, to);
        assert forall|i: int| 0 <= i < s.len() implies {
            &&& from <= (#[trigger] s[i]).start
            &&& s[i].len > 0
            &&& s[i].offset >= 0
            &&& s[i].fill.len() == 4
            &&& known_kind(s[i].kind)
            &&& s[i].kind == CHUNK_RAW ==> s[i].offset + s[i].len <= u64::MAX
            &&& s[i].start + s[i].len <= to
        } by {
            if i > 0 {
                assert(rest[i - 1] == s[i]);
            }
        }
        assert forall|i: int, j: int| 0 <= i < j < s.len() implies (#[trigger] s[i]).start
            + s[i].len <= (#[trigger] s[j]).start by {
            assert(rest[j - 1] == s[j]);
            if i > 0 {
                assert(rest[i - 1] == s[i]);
            }
        }
        if rest.len() > 0 {
            assert(rest.last() == s.last());
        }
    }
}

/// A contiguous chunk ends where the next one starts.
proof fn contiguous_adjacent(s: Seq<ChunkView>, from: int, to: int, i: int)
    requires
        contiguous(s, from, to),
        0 <= i < s.len(),
    ensures
        i + 1 < s.len() ==> s[i].start + s[i].len == s[i + 1].start,
        i + 1 == s.len() ==> s[i].start + s[i].len == to,
    decreases i,
{
    contiguous_bounds(s, from, to);
    let rest = s.drop_first();
    contiguous_bounds(rest, from + s[0].len, to);
    if i > 0 {
        contiguous_adjacent(rest, from + s[0].len, to, i - 1);
        assert(rest[i - 1] == s[i]);
        assert(i + 1 < s.len() ==> rest[i] == s[i + 1]);
    } else if s.len() > 1 {
        assert(rest[0] == s[1]);
    }
}

/// Appending a chunk that follows keeps chunks contiguous.
proof fn contiguous_push(s: Seq<ChunkView>, from: int, mid: int, chunk: ChunkView)
    requires
        contiguous(s, from, mid),
        chunk.start == mid,
        chunk.len > 0,
        chunk.offset >= 0,
        chunk.fill.len() == 4,
        known_kind(chunk.kind),
        chunk.kind == CHUNK_RAW ==> chunk.offset + chunk.len <= u64::MAX,
    ensures
        contiguous(s.push(chunk), from, mid + chunk.len),
    decreases s.len(),
{
    let t = s.push(chunk);
    if s.len() > 0 {
        contiguous_push(s.drop_first(), from + s[0].len, mid, chunk);
        assert(t.drop_first() =~= s.drop_first().push(chunk));
    } else {
        assert(t.drop_first() =~= Seq::empty());
        assert(t[0] == chunk);
        assert(contiguous(t.drop_first(), mid + chunk.len, mid + chunk.len));
    }
}

/// The chunk that holds a position is the one whose range it is in.
proof fn holder_is(v: SparseView, i: int, p: int)
    requires
        v.wf(),
        0 <= i < v.chunks.len(),
        v.chunks[i].start <= p < v.chunks[i].start + v.chunks[i].len,
    ensures
        v.holder(p) == i,
{
    contiguous_bounds(v.chunks, 0, v.size);
    let h = v.holder(p);
    assert(v.chunks[h].start <= p < v.chunks[h].start + v.chunks[h].len);
    if h < i {
        assert(v.chunks[h].start + v.chunks[h].len <= v.chunks[i].start);
    } else if i < h {
        assert(v.chunks[i].start + v.chunks[i].len <= v.chunks[h].start);
    }
}

/// Every position of the logical image is held by one chunk.
pub proof fn holder_exists(v: SparseView, p: int) -> (i: int)
    requires
        v.wf(),
        0 <= p < v.size,
    ensures
        0 <= i < v.chunks.len(),
        v.chunks[i].start <= p < v.chunks[i].start + v.chunks[i].len,
        v.holder(p) == i,
{
    contiguous_bounds(v.chunks, 0, v.size);
    let i = holder_from(v, 0, p);
    holder_is(v, i, p);
    i
}

proof fn holder_from(v: SparseView, k: int, p: int) -> (i: int)
    requires
        v.wf(),
        0 <= k < v.chunks.len(),
        v.chunks[k].start <= p < v.size,
    ensures
        0 <= i < v.chunks.len(),
        v.chunks[i].start <= p < v.chunks[i].start + v.chunks[i].len,
    decreases v.chunks.len() - k,
{
    contiguous_adjacent(v.chunks, 0, v.size, k);
    if p < v.chunks[k].start + v.chunks[k].len {
        k
    } else {
        holder_from(v, k + 1, p)
    }
}

/// Four hexadecimal digits of a 16-bit number.
fn push_hex4(s: &mut String, n: u16)
    ensures
        final(s)@ == old(s)@ + hex4(n as int),
{
    push_numeral(s, (n / 4096 % 16) as u64, 16);
    push_numeral(s, (n / 256 % 16) as u64, 16);
    push_numeral(s, (n / 16 % 16) as u64, 16);
    push_numeral(s, (n % 16) as u64, 16);
    assert(s@ =~= old(s)@ + hex4(n as int));
}

fn chunk_error(index: u32, what: &str) -> (e: Error)
    ensures
        e@ == Fault::Invalid(chunk_complaint(index as int, what@)),
{
    Error::Invalid(with_number("chunk ", index as u64, what))
}

/// Reads the chunk header at `pos`.
fn read_chunk<S: ByteSource>(
    source: &S,
    pos: u64,
    index: u32,
    header: u64,
    block_size: u64,
    start: u64,
) -> (r: Result<(SparseChunk, u64), Error>)
    requires
        12 <= header <= 1024,
        0 < block_size <= 64 * 1024 * 1024,
    ensures
        match r {
            Ok((chunk, next)) => chunk_at(
                source.bytes(),
                pos as int,
                index as int,
                header as int,
                block_size as int,
                start as int,
            ) == Ok::<(ChunkView, int), Fault>((chunk@, next as int)),
            Err(e) => chunk_at(
                source.bytes(),
                pos as int,
                index as int,
                header as int,
                block_size as int,
                start as int,
            ) == Err::<(ChunkView, int), Fault>(e@) || (source.faulty() && e is Io),
        },
{
    let ghost c = source.bytes();
    let head = match source.read(pos, header as usize) {
        Ok(v) => v,
        Err(e) => {
            return Err(Error::Io);
        },
    };
    proof {
        crate::buf::le_in_window(c, pos as int, head@, 0);
        crate::buf::le_in_window(c, pos as int, head@, 4);
        crate::buf::le_in_window(c, pos as int, head@, 8);
    }
    let kind = get16(&head, 0);
    let blocks = get32(&head, 4) as u64;
    let total = get32(&head, 8) as u64;
    proof {
        assert(blocks * block_size <= 0xffff_ffff * (64 * 1024 * 1024)) by (nonlinear_arith)
            requires
                blocks <= 0xffff_ffff,
                block_size <= 64 * 1024 * 1024,
        ;
        assert(blocks > 0 ==> blocks * block_size > 0) by (nonlinear_arith)
            requires
                block_size > 0,
        ;
    }
    let len = blocks * block_size;
    if blocks == 0 {
        return Err(chunk_error(index, " has no blocks"));
    }
    if total < header {
        return Err(chunk_error(index, " has invalid size"));
    }
    let data = total - header;
    let offset = pos + header;
    let mut fill: [u8; 4] = [0, 0, 0, 0];
    assert(fill@ =~= zeros(4));
    if kind == CHUNK_FILL {
        if data != 4 {
            return Err(chunk_error(index, " has invalid FILL size"));
        }
        let v = match source.read(offset, 4) {
            Ok(v) => v,
            Err(e) => {
                return Err(Error::Io);
            },
        };
        fill = [v[0], v[1], v[2], v[3]];
        assert(fill@ =~= v@);
    }
    if kind == CHUNK_RAW {
        if data != len {
            return Err(chunk_error(index, " has invalid RAW size"));
        }
    } else if kind == CHUNK_DONT_CARE || kind == CHUNK_CRC32 {
        if data != 0 && !(kind == CHUNK_CRC32 && data == 4) {
            return Err(chunk_error(index, " has invalid size"));
        }
    } else if kind != CHUNK_FILL {
        let mut text = with_number("chunk ", index as u64, " type 0x");
        push_hex4(&mut text, kind);
        push_text(&mut text, " is unsupported");
        return Err(Error::Invalid(text));
    }
    let next = match offset.checked_add(data) {
        Some(next) => next,
        None => {
            return Err(Error::Io);
        },
    };
    Ok(
        (
            SparseChunk {
                kind,
                logical_start: start,
                logical_len: len,
                file_offset: offset,
                fill_value: fill,
            },
            next,
        ),
    )
}

impl SparseImage {
    /// The chunks cover the logical image.
    pub open spec fn wf(self) -> bool {
        self@.wf()
    }

    /// Parses the header and the chunk table of a sparse container.
    pub fn parse<S: ByteSource>(source: &S) -> (r: Result<SparseImage, Error>)
        ensures
            told(source.faulty(), r, sparse_of(source.bytes())),
            r matches Ok(v) ==> v.wf(),
    {
        let ghost c = source.bytes();
        let head = match source.read(0, 28) {
            Ok(v) => v,
            Err(e) => {
                return Err(Error::Io);
            },
        };
        proof {
            crate::buf::le_in_window(c, 0, head@, 4);
            crate::buf::le_in_window(c, 0, head@, 8);
            crate::buf::le_in_window(c, 0, head@, 10);
            crate::buf::le_in_window(c, 0, head@, 12);
            crate::buf::le_in_window(c, 0, head@, 16);
            crate::buf::le_in_window(c, 0, head@, 20);
        }
        let major = get16(&head, 4);
        let file_header = get16(&head, 8) as u64;
        let chunk_header = get16(&head, 10) as u64;
        let block_size = get32(&head, 12) as u64;
        let total_blocks = get32(&head, 16) as u64;
        let total_chunks = get32(&head, 20);
        if major != 1 || file_header < 28 || chunk_header < 12 || chunk_header > 1024 || block_size
            == 0 || block_size > 64 * 1024 * 1024 {
            return Err(Error::invalid("unsupported sparse header"));
        }
        let mut chunks: Vec<SparseChunk> = Vec::new();
        let mut start: u64 = 0;
        let mut pos: u64 = file_header;
        let mut index: u32 = 0;
        let ghost whole = chunks_from(
            c,
            file_header as int,
            0,
            total_chunks as int,
            chunk_header as int,
            block_size as int,
            0,
        );
        assert(chunk_views(chunks@) =~= Seq::empty());
        while index < total_chunks
            invariant
                index <= total_chunks,
                c == source.bytes(),
                12 <= chunk_header <= 1024,
                0 < block_size <= 64 * 1024 * 1024,
                contiguous(chunk_views(chunks@), 0, start as int),
                whole == match chunks_from(
                    c,
                    pos as int,
                    index as int,
                    total_chunks as int,
                    chunk_header as int,
                    block_size as int,
                    start as int,
                ) {
                    Err(e) => Err(e),
                    Ok((rest, end)) => Ok((chunk_views(chunks@) + rest, end)),
                },
                whole == chunks_from(
                    c,
                    le16(c, 8) as int,
                    0,
                    le32(c, 20) as int,
                    le16(c, 10) as int,
                    le32(c, 12) as int,
                    0,
                ),
                c.len() >= 28,
                header_supported(c),
            decreases total_chunks - index,
        {
            let ghost before = chunk_views(chunks@);
            let (chunk, next) = match read_chunk(
                source,
                pos,
                index,
                chunk_header,
                block_size,
                start,
            ) {
                Ok(v) => v,
                Err(e) => {
                    return Err(e);
                },
            };
            let len = chunk.logical_len;
            let ghost view = chunk@;
            chunks.push(chunk);
            proof {
                assert(view.len > 0) by {
                    let blocks = le32(c, pos + 4);
                    assert(blocks * block_size > 0) by (nonlinear_arith)
                        requires
                            blocks > 0,
                            block_size > 0,
                    ;
                }
                contiguous_push(before, 0, start as int, view);
                assert(chunk_views(chunks@) =~= before.push(view));
            }
            start = match start.checked_add(len) {
                Some(v) => v,
                None => {
                    return Err(Error::invalid("logical image size overflow"));
                },
            };
            pos = next;
            index += 1;
            proof {
                match chunks_from(
                    c,
                    pos as int,
                    index as int,
                    total_chunks as int,
                    chunk_header as int,
                    block_size as int,
                    start as int,
                ) {
                    Ok((rest, end)) => {
                        assert(before + (seq![view] + rest) =~= chunk_views(chunks@) + rest);
                    },
                    Err(e) => {},
                }
            }
        }
        proof {
            assert(chunk_views(chunks@) + Seq::<ChunkView>::empty() =~= chunk_views(chunks@));
            assert(total_blocks * block_size <= 0xffff_ffff * (64 * 1024 * 1024))
                by (nonlinear_arith)
                requires
                    total_blocks <= 0xffff_ffff,
                    block_size <= 64 * 1024 * 1024,
            ;
        }
        let expected = total_blocks * block_size;
        if start != expected {
            return Err(Error::invalid("chunk blocks do not match header"));
        }
        Ok(SparseImage { block_size, logical_size: expected, chunks })
    }

    /// The size of the image that the container holds.
    pub fn logical_size(&self) -> (n: u64)
        ensures
            n == self@.size,
    {
        self.logical_size
    }

    /// The number of chunks that start at or before `position`.
    fn chunks_up_to(&self, position: u64) -> (n: usize)
        requires
            self.wf(),
        ensures
            n <= self@.chunks.len(),
            forall|i: int| 0 <= i < n ==> (#[trigger] self@.chunks[i]).start <= position,
            forall|i: int|
                n <= i < self@.chunks.len() ==> (#[trigger] self@.chunks[i]).start > position,
    {
        proof {
            contiguous_bounds(self@.chunks, 0, self@.size);
        }
        let ghost v = self@.chunks;
        let mut lo: usize = 0;
        let mut hi: usize = self.chunks.len();
        while lo < hi
            invariant
                lo <= hi <= self.chunks.len(),
                v == self@.chunks,
                forall|i: int, j: int|
                    0 <= i < j < v.len() ==> (#[trigger] v[i]).start + v[i].len <= (
                    #[trigger] v[j]).start,
                forall|i: int| 0 <= i < v.len() ==> (#[trigger] v[i]).len > 0,
                forall|i: int| 0 <= i < lo ==> (#[trigger] v[i]).start <= position,
                forall|i: int| hi <= i < v.len() ==> (#[trigger] v[i]).start > position,
            decreases hi - lo,
        {
            let mid = lo + (hi - lo) / 2;
            assert(v[mid as int].start == self.chunks@[mid as int].logical_start);
            if self.chunks[mid].logical_start <= position {
                assert forall|i: int| 0 <= i < mid + 1 implies (#[trigger] v[i]).start
                    <= position by {
                    if i < mid {
                        assert(v[i].start + v[i].len <= v[mid as int].start);
                    }
                }
                lo = mid + 1;
            } else {
                assert forall|i: int| mid <= i < v.len() implies (#[trigger] v[i]).start
                    > position by {
                    if i > mid {
                        assert(v[mid as int].start + v[mid as int].len <= v[i].start);
                    }
                }
                hi = mid;
            }
        }
        lo
    }

    /// Reads `len` logical bytes from `offset` on out of the container.
    pub fn read_at<S: ByteSource>(&self, source: &S, offset: u64, len: usize) -> (r: Result<
        Vec<u8>,
        Error,
    >)
        requires
            self.wf(),
        ensures
            told(source.faulty(), r, self@.read(source.bytes(), offset as int, len as int)),
    {
        let ghost c = source.bytes();
        let ghost v = self@;
        let ghost content = v.content(c);
        let mut out: Vec<u8> = Vec::new();
        let mut position: u64 = offset;
        proof {
            contiguous_bounds(v.chunks, 0, v.size);
        }
        while out.len() < len
            invariant
                self.wf(),
                v == self@,
                c == source.bytes(),
                content == v.content(c),
                content.len() == v.size,
                out.len() <= len,
                position == offset + out.len(),
                out.len() > 0 ==> position <= v.size,
                forall|k: int| 0 <= k < out.len() ==> out@[k] == #[trigger] content[offset + k],
                forall|p: int| offset <= p < position ==> !#[trigger] v.lacks(c, p),
            decreases len - out.len(),
        {
            proof {
                contiguous_bounds(v.chunks, 0, v.size);
            }
            let idx = self.chunks_up_to(position);
            if idx == 0 {
                assert(v.chunks.len() > 0 ==> v.chunks[0].start == 0);
                assert(v.chunks.len() == 0);
                return Err(no_chunk(position));
            }
            let chunk = &self.chunks[idx - 1];
            let ghost cv = v.chunks[idx - 1];
            assert(cv == chunk@);
            proof {
                contiguous_adjacent(v.chunks, 0, v.size, idx - 1);
            }
            let end = chunk.logical_start + chunk.logical_len;
            if position >= end {
                assert(idx == v.chunks.len());
                assert(end == v.size);
                return Err(no_chunk(position));
            }
            let available = end - position;
            let remaining = len - out.len();
            let count: usize = if available < remaining as u64 {
                available as usize
            } else {
                remaining
            };
            let ghost before = out@;
            let ghost here = position as int;
            proof {
                assert forall|p: int| here <= p < here + count implies #[trigger] v.holder(p) == idx
                    - 1 by {
                    holder_is(v, idx - 1, p);
                }
            }
            let part = match read_part(source, chunk, position, count) {
                Ok(part) => part,
                Err(e) => {
                    proof {
                        if !source.faulty() {
                            let p = here + count - 1;
                            assert(v.holder(p) == idx - 1);
                            assert(v.lacks(c, p));
                            assert(exists|p: int|
                                offset <= p < offset + len && p < v.size && v.lacks(c, p));
                        }
                    }
                    return Err(Error::Io);
                },
            };
            push_bytes(&mut out, &part);
            position = position + count as u64;
            proof {
                assert forall|k: int| 0 <= k < out.len() implies out@[k] == #[trigger] content[offset
                    + k] by {
                    let p = offset + k;
                    if p >= here {
                        assert(v.holder(p) == idx - 1);
                        assert(content[p] == chunk_byte(c, cv, p));
                        assert(part@[p - here] == chunk_byte(c, cv, here + (p - here)));
                    } else {
                        assert(out@[k] == before[k]);
                    }
                }
                assert forall|p: int| offset <= p < position implies !#[trigger] v.lacks(c, p) by {
                    if p >= here {
                        assert(v.holder(p) == idx - 1);
                    }
                }
            }
        }
        assert(out@ =~= Seq::new(len as nat, |i: int| content[offset + i]));
        Ok(out)
    }
}

/// Reads `count` bytes of one chunk from the logical `position` on.
fn read_part<S: ByteSource>(source: &S, chunk: &SparseChunk, position: u64, count: usize) -> (r:
    Result<Vec<u8>, Error>)
    requires
        known_kind(chunk.kind),
        chunk.logical_start <= position,
        position + count <= chunk.logical_start + chunk.logical_len <= u64::MAX,
        chunk.kind == CHUNK_RAW ==> chunk.file_offset + chunk.logical_len <= u64::MAX,
    ensures
        match r {
            Ok(v) => {
                &&& v@.len() == count
                &&& forall|k: int|
                    0 <= k < count ==> #[trigger] v@[k] == chunk_byte(
                        source.bytes(),
                        chunk@,
                        position + k,
                    )
                &&& chunk.kind == CHUNK_RAW ==> chunk.file_offset + (position - chunk.logical_start)
                    + count <= source.bytes().len()
            },
            Err(e) => e is Io && (source.faulty() || (chunk.kind == CHUNK_RAW && chunk.file_offset
                + (position - chunk.logical_start) + count > source.bytes().len())),
        },
{
    if chunk.kind == CHUNK_RAW {
        source.read(chunk.file_offset + (position - chunk.logical_start), count)
    } else if chunk.kind == CHUNK_FILL {
        let mut out: Vec<u8> = Vec::new();
        let mut k: usize = 0;
        while k < count
            invariant
                k <= count,
                position + count <= u64::MAX,
                out@.len() == k,
                forall|j: int|
                    0 <= j < k ==> #[trigger] out@[j] == chunk.fill_value@[(position + j) % 4],
            decreases count - k,
        {
            out.push(chunk.fill_value[((position + k as u64) % 4) as usize]);
            k += 1;
        }
        Ok(out)
    } else {
        Ok(zeroed(count))
    }
}

fn no_chunk(position: u64) -> (e: Error)
    ensures
        e@ == Fault::Invalid("no sparse chunk for offset 0x"@ + hex(position as int)),
{
    let mut text = "no sparse chunk for offset 0x".to_owned();
    push_numeral(&mut text, position, 16);
    Error::Invalid(text)
}

// ---------------------------------------------------------------------
// The image as its user sees it
// ---------------------------------------------------------------------
/// An image in its container.
pub enum Image<S> {
    Raw { source: S, size: u64 },
    Sparse { source: S, sparse: SparseImage },
}

/// Whether the bytes start like a sparse container.
pub open spec fn is_sparse_container(c: Seq<u8>) -> bool {
    c.len() >= 4 && le32(c, 0) == SPARSE_MAGIC
}

/// What reading `n` bytes of an image from `o` on yields.
pub open spec fn disk_read(d: Seq<u8>, o: int, n: int) -> Result<Seq<u8>, Fault> {
    if o + n > u64::MAX {
        fail("read range overflow"@)
    } else if o + n > d.len() {
        fail("read range 0x"@ + hex(o) + "..0x"@ + hex(o + n) + " exceeds image"@)
    } else {
        Ok(d.subrange(o, o + n))
    }
}

impl<S: ByteSource> Image<S> {
    /// The container that the image is read from.
    pub open spec fn container(self) -> S {
        match self {
            Image::Raw { source, .. } => source,
            Image::Sparse { source, .. } => source,
        }
    }

    /// The logical content of the image.
    pub open spec fn disk(self) -> Seq<u8> {
        match self {
            Image::Raw { source, .. } => source.bytes(),
            Image::Sparse { source, sparse } => sparse@.content(source.bytes()),
        }
    }

    /// Whether the container lacks a byte of the given range.
    pub open spec fn lacks(self, o: int, n: int) -> bool {
        match self {
            Image::Raw { .. } => false,
            Image::Sparse { source, sparse } => exists|p: int|
                o <= p < o + n && #[trigger] sparse@.lacks(source.bytes(), p),
        }
    }

    /// Whether a read inside the image may fail: the storage is unreliable,
    /// or a sparse container was cut off.
    pub open spec fn faulty(self) -> bool {
        self.container().faulty() || self.lacks(0, self.disk().len() as int)
    }

    /// The recorded size is that of the content.
    pub open spec fn wf(self) -> bool {
        match self {
            Image::Raw { source, size } => size == source.bytes().len(),
            Image::Sparse { sparse, .. } => sparse.wf(),
        }
    }

    /// Recognises the container: sparse by its magic, otherwise raw.
    pub fn open(source: S) -> (r: Result<Image<S>, Error>)
        ensures
            match r {
                Ok(image) => {
                    &&& image.wf()
                    &&& image.container() == source
                    &&& match image {
                        Image::Raw { .. } => !is_sparse_container(source.bytes()),
                        Image::Sparse { sparse, .. } => is_sparse_container(source.bytes())
                            && sparse_of(source.bytes()) == Ok::<SparseView, Fault>(sparse@),
                    }
                },
                Err(e) => {
                    ||| is_sparse_container(source.bytes()) && sparse_of(source.bytes()) == Err::<
                        SparseView,
                        Fault,
                    >(e@)
                    ||| source.faulty() && e is Io
                },
            },
    {
        let size = source.len();
        if size >= 4 {
            let magic = match source.read(0, 4) {
                Ok(v) => v,
                Err(e) => {
                    return Err(e);
                },
            };
            proof {
                crate::buf::le_in_window(source.bytes(), 0, magic@, 0);
            }
            if get32(&magic, 0) == SPARSE_MAGIC {
                return match SparseImage::parse(&source) {
                    Ok(sparse) => Ok(Image::Sparse { source, sparse }),
                    Err(e) => Err(e),
                };
            }
        }
        Ok(Image::Raw { source, size })
    }

    /// The size of the image.
    pub fn size(&self) -> (n: u64)
        requires
            self.wf(),
        ensures
            n == self.disk().len(),
    {
        match self {
            Image::Raw { size, .. } => *size,
            Image::Sparse { sparse, .. } => sparse.logical_size(),
        }
    }

    /// Whether the container is sparse.
    pub fn is_sparse(&self) -> (b: bool)
        ensures
            b == (self is Sparse),
    {
        match self {
            Image::Raw { .. } => false,
            Image::Sparse { .. } => true,
        }
    }

    /// Block size and number of chunks of a sparse container.
    pub fn sparse_info(&self) -> (r: Option<(u64, usize)>)
        ensures
            match self {
                Image::Raw { .. } => r is None,
                Image::Sparse { sparse, .. } => r matches Some((block_size, chunks)) && block_size
                    == sparse@.block_size && chunks == sparse@.chunks.len(),
            },
    {
        match self {
            Image::Raw { .. } => None,
            Image::Sparse { sparse, .. } => Some((sparse.block_size, sparse.chunks.len())),
        }
    }

    /// The name of the container format.
    pub fn container_name(&self) -> (s: &'static str)
        ensures
            s@ == (if self is Sparse {
                "android-sparse"@
            } else {
                "raw"@
            }),
    {
        if self.is_sparse() {
            "android-sparse"
        } else {
            "raw"
        }
    }

    /// Reads `len` bytes of the logical content from `offset` on.
    pub fn read_at(&self, offset: u64, len: usize) -> (r: Result<Vec<u8>, Error>)
        requires
            self.wf(),
        ensures
            told(self.faulty(), r, disk_read(self.disk(), offset as int, len as int)),
            r is Ok ==> !self.lacks(offset as int, len as int),
            r matches Err(e) ==> e is Io ==> self.container().faulty() || self.lacks(
                offset as int,
                len as int,
            ),
    {
        let end = match offset.checked_add(len as u64) {
            Some(end) => end,
            None => {
                return Err(Error::invalid("read range overflow"));
            },
        };
        if end > self.size() {
            let mut text = "read range 0x".to_owned();
            push_numeral(&mut text, offset, 16);
            push_text(&mut text, "..0x");
            push_numeral(&mut text, end, 16);
            push_text(&mut text, " exceeds image");
            return Err(Error::Invalid(text));
        }
        match self {
            Image::Raw { source, .. } => source.read(offset, len),
            Image::Sparse { source, sparse } => {
                let r = sparse.read_at(source, offset, len);
                proof {
                    let v = sparse@;
                    let c = source.bytes();
                    let (o, n) = (offset as int, len as int);
                    if exists|p: int| o <= p < o + n && p < v.size && v.lacks(c, p) {
                        let p = choose|p: int| o <= p < o + n && p < v.size && v.lacks(c, p);
                        assert(v.lacks(c, p));
                        assert(self.lacks(o, n));
                        assert(self.lacks(0, v.size));
                    } else {
                        assert(!self.lacks(o, n));
                        assert(v.content(c).subrange(o, o + n) =~= Seq::new(
                            n as nat,
                            |i: int| v.content(c)[o + i],
                        ));
                    }
                }
                r
            },
        }
    }
}

} // verus!
