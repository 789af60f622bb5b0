//! Encoding a raw image as an Android sparse container.
//!
//! The raw image is scanned block by block; only the descriptors of the runs
//! are kept in memory, payloads stream from the source to the sink.
use crate::buf::{
    bytes16, bytes32, le16, le32, push16, push32, push_bytes, zeros,
};
use crate::error::{fail, Error, Fault};
use crate::image::{
    chunk_at, chunk_byte, chunks_from, contiguous, is_sparse_container, known_kind, sparse_of,
    ByteSink, ByteSource, ChunkView, Image, SparseView, CHUNK_DONT_CARE, CHUNK_FILL, CHUNK_RAW,
    COPY_QUANTUM, SPARSE_MAGIC, SPARSE_MAX_RAW_RUN, STREAM_QUANTUM,
};
use vstd::prelude::*;

verus! {

/// A run of blocks that becomes one chunk.
#[derive(Debug, Clone)]
pub struct SparseRun {
    pub kind: u16,
    pub start_block: u64,
    pub count: u32,
    pub fill: [u8; 4],
}

/// The mathematical counterpart of [`SparseRun`].
#[verifier::ext_equal]
pub struct RunView {
    pub kind: u16,
    pub start: int,
    pub count: int,
    pub fill: Seq<u8>,
}

impl View for SparseRun {
    type V = RunView;

    open spec fn view(&self) -> RunView {
        RunView {
            kind: self.kind,
            start: self.start_block as int,
            count: self.count as int,
            fill: self.fill@,
        }
    }
}

/// The views of a sequence of runs.
pub open spec fn run_views(s: Seq<SparseRun>) -> Seq<RunView> {
    s.map_values(|r: SparseRun| r@)
}

// ---------------------------------------------------------------------
// Classification and scan
// ---------------------------------------------------------------------
/// All bytes are zero.
pub open spec fn all_zero(s: Seq<u8>) -> bool {
    forall|i: int| 0 <= i < s.len() ==> s[i] == 0
}

/// The whole words of the block repeat its first one.
pub open spec fn repeats(s: Seq<u8>) -> bool {
    forall|i: int| 0 <= i < s.len() - s.len() % 4 ==> #[trigger] repeats_at(s, i)
}

/// The byte at `i` is that of its place in the first word.
pub open spec fn repeats_at(s: Seq<u8>, i: int) -> bool {
    s[i] == s[i % 4]
}

/// The kind of chunk that a block belongs in, with its fill pattern.
pub open spec fn classify(s: Seq<u8>) -> (u16, Seq<u8>) {
    if all_zero(s) {
        (CHUNK_DONT_CARE, zeros(4))
    } else if repeats(s) {
        (CHUNK_FILL, s.subrange(0, 4))
    } else {
        (CHUNK_RAW, zeros(4))
    }
}

/// The block of the given index.
pub open spec fn block(c: Seq<u8>, block_size: int, i: int) -> Seq<u8> {
    c.subrange(i * block_size, (i + 1) * block_size)
}

/// The end of the run that starts at block `start` and reaches at least `i`.
pub open spec fn run_end(c: Seq<u8>, block_size: int, blocks: int, start: int, i: int) -> int
    decreases blocks - i,
{
    let class = classify(block(c, block_size, start));
    if i < blocks && (class.0 == CHUNK_RAW ==> i - start < SPARSE_MAX_RAW_RUN) && classify(
        block(c, block_size, i),
    ) == class {
        run_end(c, block_size, blocks, start, i + 1)
    } else {
        i
    }
}

/// The run that starts at block `i`.
pub open spec fn run_at(c: Seq<u8>, block_size: int, blocks: int, i: int) -> RunView {
    let class = classify(block(c, block_size, i));
    RunView {
        kind: class.0,
        start: i,
        count: run_end(c, block_size, blocks, i, i + 1) - i,
        fill: class.1,
    }
}

/// A run never ends before the block it was followed to.
pub proof fn run_end_grows(c: Seq<u8>, block_size: int, blocks: int, start: int, i: int)
    ensures
        run_end(c, block_size, blocks, start, i) >= i,
        i <= blocks ==> run_end(c, block_size, blocks, start, i) <= blocks,
        forall|j: int|
            i <= j < run_end(c, block_size, blocks, start, i) ==> classify(
                #[trigger] block(c, block_size, j),
            ) == classify(block(c, block_size, start)),
    decreases blocks - i,
{
    let class = classify(block(c, block_size, start));
    if i < blocks && (class.0 == CHUNK_RAW ==> i - start < SPARSE_MAX_RAW_RUN) && classify(
        block(c, block_size, i),
    ) == class {
        run_end_grows(c, block_size, blocks, start, i + 1);
    }
}

/// A RAW run has at most [`SPARSE_MAX_RAW_RUN`] blocks.
pub proof fn raw_run_is_short(c: Seq<u8>, block_size: int, blocks: int, start: int, i: int)
    requires
        start < i <= start + SPARSE_MAX_RAW_RUN,
        classify(block(c, block_size, start)).0 == CHUNK_RAW,
    ensures
        run_end(c, block_size, blocks, start, i) <= start + SPARSE_MAX_RAW_RUN,
    decreases blocks - i,
{
    if i < blocks && i - start < SPARSE_MAX_RAW_RUN {
        raw_run_is_short(c, block_size, blocks, start, i + 1);
    }
}

/// The runs from block `i` on.
pub open spec fn runs_from(c: Seq<u8>, block_size: int, blocks: int, i: int) -> Seq<RunView>
    decreases blocks - i,
{
    if i >= blocks {
        Seq::empty()
    } else {
        let run = run_at(c, block_size, blocks, i);
        proof {
            run_end_grows(c, block_size, blocks, i, i + 1);
        }
        seq![run] + runs_from(c, block_size, blocks, i + run.count)
    }
}

/// The runs of a whole raw image, with its number of blocks.
pub open spec fn scan_of(c: Seq<u8>, block_size: int) -> Result<(Seq<RunView>, int), Fault> {
    if block_size == 0 {
        fail("invalid block size"@)
    } else if c.len() as int % block_size != 0 {
        fail("image size is not block aligned"@)
    } else if c.len() as int / block_size > u32::MAX {
        fail("image has too many blocks for sparse"@)
    } else {
        let blocks = c.len() as int / block_size;
        Ok((runs_from(c, block_size, blocks, 0), blocks))
    }
}

fn classify_block(block: &[u8]) -> (r: (u16, [u8; 4]))
    requires
        block@.len() >= 4,
    ensures
        (r.0, r.1@) == classify(block@),
{
    let mut i: usize = 0;
    while i < block.len() && block[i] == 0
        invariant
            i <= block.len(),
            forall|k: int| 0 <= k < i ==> block@[k] == 0,
        decreases block.len() - i,
    {
        i += 1;
    }
    let none: [u8; 4] = [0, 0, 0, 0];
    assert(none@ =~= zeros(4));
    if i == block.len() {
        return (CHUNK_DONT_CARE, none);
    }
    assert(!all_zero(block@)) by {
        assert(block@[i as int] != 0);
    }
    let whole = block.len() - block.len() % 4;
    let mut i: usize = 0;
    while i < whole && block[i] == block[i % 4]
        invariant
            i <= whole <= block.len(),
            block.len() >= 4,
            forall|k: int| 0 <= k < i ==> #[trigger] repeats_at(block@, k),
        decreases whole - i,
    {
        assert(repeats_at(block@, i as int));
        i += 1;
    }
    if i == whole {
        let fill: [u8; 4] = [block[0], block[1], block[2], block[3]];
        assert(fill@ =~= block@.subrange(0, 4));
        return (CHUNK_FILL, fill);
    }
    assert(!repeats(block@)) by {
        assert(!repeats_at(block@, i as int));
    }
    (CHUNK_RAW, none)
}

/// The class of one block of the source.
fn class_at<S: ByteSource>(raw: &S, block_size: usize, blocks: u64, i: u64) -> (r: Result<
    (u16, [u8; 4]),
    Error,
>)
    requires
        block_size >= 4,
        i < blocks,
        raw.bytes().len() == blocks * block_size,
    ensures
        match r {
            Ok(class) => (class.0, class.1@) == classify(
                block(raw.bytes(), block_size as int, i as int),
            ),
            Err(e) => raw.faulty() && e is Io,
        },
{
    let size = raw.len();
    assert(i * block_size + block_size <= blocks * block_size) by (nonlinear_arith)
        requires
            i < blocks,
    ;
    let offset = i * block_size as u64;
    assert((i + 1) * block_size == i * block_size + block_size) by (nonlinear_arith);
    match raw.read(offset, block_size) {
        Ok(v) => Ok(classify_block(&v)),
        Err(e) => Err(e),
    }
}

fn same_class(a: &(u16, [u8; 4]), b: &(u16, [u8; 4])) -> (r: bool)
    ensures
        r == (a.0 == b.0 && a.1@ == b.1@),
{
    let r = a.0 == b.0 && a.1[0] == b.1[0] && a.1[1] == b.1[1] && a.1[2] == b.1[2] && a.1[3]
        == b.1[3];
    assert(r ==> a.1@ =~= b.1@);
    r
}

/// Scan a raw block-aligned source, return merged chunk descriptors and the
/// number of blocks.
pub fn scan_sparse_runs<S: ByteSource>(raw: &S, block_size: usize) -> (r: Result<
    (Vec<SparseRun>, u64),
    Error,
>)
    requires
        block_size == 0 || block_size >= 4,
    ensures
        match r {
            Ok((runs, blocks)) => scan_of(raw.bytes(), block_size as int) == Ok::<
                (Seq<RunView>, int),
                Fault,
            >((run_views(runs@), blocks as int)),
            Err(e) => scan_of(raw.bytes(), block_size as int) == Err::<(Seq<RunView>, int), Fault>(
                e@,
            ) || (raw.faulty() && e is Io),
        },
{
    let ghost c = raw.bytes();
    if block_size == 0 {
        return Err(Error::invalid("invalid block size"));
    }
    let len = raw.len();
    if len % block_size as u64 != 0 {
        return Err(Error::invalid("image size is not block aligned"));
    }
    let blocks = len / block_size as u64;
    if blocks > u32::MAX as u64 {
        return Err(Error::invalid("image has too many blocks for sparse"));
    }
    proof {
        vstd::arithmetic::div_mod::lemma_fundamental_div_mod(len as int, block_size as int);
        assert(blocks * block_size == block_size * blocks) by (nonlinear_arith);
    }
    let ghost bs = block_size as int;
    let ghost whole = runs_from(c, bs, blocks as int, 0);
    let mut runs: Vec<SparseRun> = Vec::new();
    let mut index: u64 = 0;
    assert(run_views(runs@) + whole =~= whole);
    while index < blocks
        invariant
            index <= blocks <= u32::MAX,
            block_size >= 4,
            bs == block_size,
            c == raw.bytes(),
            c.len() == blocks * block_size,
            run_views(runs@) + runs_from(c, bs, blocks as int, index as int) == whole,
        decreases blocks - index,
    {
        let ghost before = run_views(runs@);
        let class = match class_at(raw, block_size, blocks, index) {
            Ok(class) => class,
            Err(e) => {
                return Err(e);
            },
        };
        let start = index;
        index += 1;
        let ghost target = run_end(c, bs, blocks as int, start as int, start + 1);
        loop
            invariant
                start < index <= blocks <= u32::MAX,
                block_size >= 4,
                bs == block_size,
                c == raw.bytes(),
                c.len() == blocks * block_size,
                (class.0, class.1@) == classify(block(c, bs, start as int)),
                target == run_end(c, bs, blocks as int, start as int, index as int),
            ensures
                index == target,
            decreases blocks - index,
        {
            if index >= blocks || (class.0 == CHUNK_RAW && index - start >= SPARSE_MAX_RAW_RUN) {
                break ;
            }
            let next = match class_at(raw, block_size, blocks, index) {
                Ok(class) => class,
                Err(e) => {
                    return Err(e);
                },
            };
            if !same_class(&next, &class) {
                break ;
            }
            index += 1;
        }
        let run = SparseRun {
            kind: class.0,
            start_block: start,
            count: (index - start) as u32,
            fill: class.1,
        };
        let ghost view = run@;
        runs.push(run);
        proof {
            assert(view =~= run_at(c, bs, blocks as int, start as int));
            assert(run_views(runs@) =~= before.push(view));
            let rest = runs_from(c, bs, blocks as int, index as int);
            assert(runs_from(c, bs, blocks as int, start as int) == seq![view] + rest);
            assert(before + (seq![view] + rest) =~= run_views(runs@) + rest);
        }
    }
    assert(run_views(runs@) =~= whole);
    Ok((runs, blocks))
}

// ---------------------------------------------------------------------
// Emission
// ---------------------------------------------------------------------
/// The 28 bytes of the container header.
pub open spec fn sparse_header(block_size: int, blocks: int, chunks: int) -> Seq<u8> {
    bytes32(SPARSE_MAGIC) + bytes16(1) + bytes16(0) + bytes16(28) + bytes16(12) + bytes32(
        block_size as u32,
    ) + bytes32(blocks as u32) + bytes32(chunks as u32) + bytes32(0)
}

/// The size of the payload of a run.
pub open spec fn run_payload(block_size: int, run: RunView) -> int {
    if run.kind == CHUNK_RAW {
        run.count * block_size
    } else if run.kind == CHUNK_FILL {
        4
    } else {
        0
    }
}

/// The bytes of the chunk of a run.
pub open spec fn run_bytes(raw: Seq<u8>, block_size: int, run: RunView) -> Seq<u8> {
    bytes16(run.kind) + bytes16(0) + bytes32(run.count as u32) + bytes32(
        (12 + run_payload(block_size, run)) as u32,
    ) + (if run.kind == CHUNK_RAW {
        raw.subrange(run.start * block_size, run.start * block_size + run.count * block_size)
    } else if run.kind == CHUNK_FILL {
        run.fill
    } else {
        Seq::empty()
    })
}

/// The chunks of all runs.
pub open spec fn emitted(raw: Seq<u8>, block_size: int, runs: Seq<RunView>) -> Result<
    Seq<u8>,
    Fault,
>
    decreases runs.len(),
{
    if runs.len() == 0 {
        Ok(Seq::empty())
    } else if run_payload(block_size, runs[0]) > u32::MAX - 12 {
        fail("sparse chunk payload is too large"@)
    } else if runs[0].kind == CHUNK_RAW && runs[0].start * block_size + runs[0].count * block_size
        > raw.len() {
        Err(Fault::Io)
    } else {
        match emitted(raw, block_size, runs.drop_first()) {
            Err(e) => Err(e),
            Ok(rest) => Ok(run_bytes(raw, block_size, runs[0]) + rest),
        }
    }
}

/// Appends the container header.
pub fn write_sparse_header<O: ByteSink>(
    out: &mut O,
    block_size: usize,
    blocks: u64,
    chunks: usize,
) -> (r: Result<(), Error>)
    ensures
        final(out).full() == old(out).full(),
        match r {
            Ok(_) => final(out).written() == old(out).written() + sparse_header(
                block_size as int,
                blocks as int,
                chunks as int,
            ),
            Err(e) => e is Io && old(out).full(),
        },
{
    let mut header: Vec<u8> = Vec::new();
    push32(&mut header, SPARSE_MAGIC);
    push16(&mut header, 1);
    push16(&mut header, 0);
    push16(&mut header, 28);
    push16(&mut header, 12);
    push32(&mut header, block_size as u32);
    push32(&mut header, blocks as u32);
    push32(&mut header, chunks as u32);
    push32(&mut header, 0);
    assert(header@ =~= sparse_header(block_size as int, blocks as int, chunks as int));
    out.write(&header)
}

/// Streams `len` bytes of the source from `offset` on.
pub fn copy_bytes<S: ByteSource, O: ByteSink>(source: &S, offset: u64, len: u64, out: &mut O) -> (r:
    Result<(), Error>)
    ensures
        final(out).full() == old(out).full(),
        match r {
            Ok(_) => if len == 0 {
                final(out).written() == old(out).written()
            } else {
                &&& offset + len <= source.bytes().len()
                &&& final(out).written() == old(out).written() + source.bytes().subrange(
                    offset as int,
                    offset + len,
                )
            },
            Err(e) => e is Io && (old(out).full() || source.faulty() || offset + len
                > source.bytes().len()),
        },
{
    let ghost c = source.bytes();
    let mut done: u64 = 0;
    while done < len
        invariant
            done <= len,
            c == source.bytes(),
            out.full() == old(out).full(),
            done > 0 ==> offset + done <= c.len() <= u64::MAX,
            done > 0 ==> out.written() == old(out).written() + c.subrange(
                offset as int,
                offset + done,
            ),
            done == 0 ==> out.written() == old(out).written(),
        decreases len - done,
    {
        let rest = len - done;
        let n: usize = if rest < COPY_QUANTUM as u64 {
            rest as usize
        } else {
            COPY_QUANTUM
        };
        let from = match offset.checked_add(done) {
            Some(v) => v,
            None => {
                return Err(Error::Io);
            },
        };
        let data = match source.read(from, n) {
            Ok(v) => v,
            Err(e) => {
                return Err(e);
            },
        };
        match out.write(&data) {
            Ok(_) => {},
            Err(e) => {
                return Err(e);
            },
        }
        proof {
            if done > 0 {
                assert(c.subrange(offset as int, offset + done) + data@ =~= c.subrange(
                    offset as int,
                    offset + done + n,
                ));
            }
            assert(out.written() =~= old(out).written() + c.subrange(
                offset as int,
                offset + done + n,
            ));
        }
        done = done + n as u64;
    }
    Ok(())
}

/// Emit scanned runs: RAW payloads stream from the raw source; FILL and
/// DONT_CARE chunks carry no image data.
pub fn emit_sparse_runs<S: ByteSource, O: ByteSink>(
    raw: &S,
    block_size: usize,
    runs: &[SparseRun],
    out: &mut O,
) -> (r: Result<(), Error>)
    ensures
        final(out).full() == old(out).full(),
        match r {
            Ok(_) => emitted(raw.bytes(), block_size as int, run_views(runs@)) matches Ok(data)
                && final(out).written() == old(out).written() + data,
            Err(e) => emitted(raw.bytes(), block_size as int, run_views(runs@)) == Err::<
                Seq<u8>,
                Fault,
            >(e@) || (e is Io && (raw.faulty() || old(out).full())),
        },
{
    let ghost c = raw.bytes();
    let ghost bs = block_size as int;
    let ghost all = run_views(runs@);
    let size = raw.len();
    let mut i: usize = 0;
    let ghost mut done: Seq<u8> = Seq::empty();
    assert(all.skip(0) =~= all);
    assert(old(out).written() + done =~= old(out).written());
    proof {
        if let Ok(rest) = emitted(c, bs, all) {
            assert(done + rest =~= rest);
        }
    }
    while i < runs.len()
        invariant
            i <= runs.len(),
            c == raw.bytes(),
            size == c.len(),
            bs == block_size,
            all == run_views(runs@),
            out.full() == old(out).full(),
            out.written() == old(out).written() + done,
            emitted(c, bs, all) == (match emitted(c, bs, all.skip(i as int)) {
                Err(e) => Err(e),
                Ok(rest) => Ok(done + rest),
            }),
        decreases runs.len() - i,
    {
        let run = &runs[i];
        let ghost view = run@;
        let ghost tail = all.skip(i as int);
        proof {
            assert(tail[0] == view);
            assert(tail.drop_first() =~= all.skip(i + 1));
        }
        let payload: u64 = if run.kind == CHUNK_RAW {
            match (run.count as u64).checked_mul(block_size as u64) {
                Some(v) => v,
                None => {
                    return Err(Error::invalid("sparse chunk payload is too large"));
                },
            }
        } else if run.kind == CHUNK_FILL {
            4
        } else {
            0
        };
        if payload > (u32::MAX - 12) as u64 {
            return Err(Error::invalid("sparse chunk payload is too large"));
        }
        let mut head: Vec<u8> = Vec::new();
        push16(&mut head, run.kind);
        push16(&mut head, 0);
        push32(&mut head, run.count);
        push32(&mut head, 12 + payload as u32);
        if run.kind == CHUNK_FILL {
            push_bytes(&mut head, &run.fill);
        }
        match out.write(&head) {
            Ok(_) => {},
            Err(e) => {
                return Err(e);
            },
        }
        if run.kind == CHUNK_RAW {
            assert(run.start_block * block_size >= 0) by (nonlinear_arith);
            let offset = match run.start_block.checked_mul(block_size as u64) {
                Some(v) => v,
                None => {
                    return Err(Error::Io);
                },
            };
            if payload == 0 && offset > size {
                return Err(Error::Io);
            }
            match copy_bytes(raw, offset, payload, out) {
                Ok(_) => {},
                Err(e) => {
                    return Err(e);
                },
            }
            assert(payload == 0 ==> c.subrange(offset as int, offset + payload) =~= Seq::empty());
        }
        proof {
            let next = done + run_bytes(c, bs, view);
            assert(out.written() =~= old(out).written() + next);
            if let Ok(rest) = emitted(c, bs, all.skip(i + 1)) {
                assert(done + (run_bytes(c, bs, view) + rest) =~= next + rest);
            }
            done = next;
        }
        i += 1;
    }
    assert(all.skip(i as int) =~= Seq::empty());
    assert(done + Seq::<u8>::empty() =~= done);
    Ok(())
}

/// The sparse container of a raw image.
pub open spec fn sparse_container(raw: Seq<u8>, block_size: int) -> Result<Seq<u8>, Fault> {
    match scan_of(raw, block_size) {
        Err(e) => Err(e),
        Ok((runs, blocks)) => match emitted(raw, block_size, runs) {
            Err(e) => Err(e),
            Ok(data) => Ok(sparse_header(block_size, blocks, runs.len() as int) + data),
        },
    }
}

/// Scan a raw source and append its sparse container to the sink.
pub fn sparsify<S: ByteSource, O: ByteSink>(raw: &S, block_size: usize, out: &mut O) -> (r: Result<
    (),
    Error,
>)
    requires
        block_size == 0 || block_size >= 4,
    ensures
        final(out).full() == old(out).full(),
        match r {
            Ok(_) => sparse_container(raw.bytes(), block_size as int) matches Ok(data)
                && final(out).written() == old(out).written() + data,
            Err(e) => sparse_container(raw.bytes(), block_size as int) == Err::<Seq<u8>, Fault>(e@)
                || (e is Io && (raw.faulty() || old(out).full())),
        },
{
    let (runs, blocks) = match scan_sparse_runs(raw, block_size) {
        Ok(v) => v,
        Err(e) => {
            return Err(e);
        },
    };
    match write_sparse_header(out, block_size, blocks, runs.len()) {
        Ok(_) => {},
        Err(e) => {
            return Err(e);
        },
    }
    let r = emit_sparse_runs(raw, block_size, &runs, out);
    proof {
        if let Ok(data) = emitted(raw.bytes(), block_size as int, run_views(runs@)) {
            let head = sparse_header(block_size as int, blocks as int, runs@.len() as int);
            assert(old(out).written() + head + data =~= old(out).written() + (head + data));
        }
    }
    r
}

/// Stream the logical (de-sparsed) content of an image.
pub fn stream_logical<S: ByteSource, O: ByteSink>(image: &Image<S>, out: &mut O) -> (r: Result<
    (),
    Error,
>)
    requires
        image.wf(),
    ensures
        final(out).full() == old(out).full(),
        match r {
            Ok(_) => final(out).written() == old(out).written() + image.disk(),
            Err(e) => e is Io && (image.faulty() || old(out).full()),
        },
{
    let total = image.size();
    let ghost d = image.disk();
    let mut offset: u64 = 0;
    assert(old(out).written() + d.take(0) =~= old(out).written());
    while offset < total
        invariant
            image.wf(),
            d == image.disk(),
            offset <= total == d.len(),
            out.full() == old(out).full(),
            out.written() == old(out).written() + d.take(offset as int),
        decreases total - offset,
    {
        let rest = total - offset;
        let n: usize = if rest < STREAM_QUANTUM as u64 {
            rest as usize
        } else {
            STREAM_QUANTUM
        };
        let data = match image.read_at(offset, n) {
            Ok(v) => v,
            Err(e) => {
                return Err(e);
            },
        };
        match out.write(&data) {
            Ok(_) => {},
            Err(e) => {
                return Err(e);
            },
        }
        proof {
            assert(d.take(offset as int) + data@ =~= d.take(offset + n));
            assert(out.written() =~= old(out).written() + d.take(offset + n));
        }
        offset = offset + n as u64;
    }
    assert(d.take(offset as int) =~= d);
    Ok(())
}

// ---------------------------------------------------------------------
// Decoding an encoded image gives the image back
// ---------------------------------------------------------------------
/// The chunk that reading the encoding of a run gives, its header at `pos`.
spec fn run_chunk(block_size: int, run: RunView, pos: int) -> ChunkView {
    ChunkView {
        kind: run.kind,
        start: run.start * block_size,
        len: run.count * block_size,
        offset: pos + 12,
        fill: run.fill,
    }
}

/// A chunk gives back the bytes of the raw image.
spec fn faithful(c: Seq<u8>, raw: Seq<u8>, chunk: ChunkView) -> bool {
    forall|p: int|
        #![trigger raw[p]]
        chunk.start <= p < chunk.start + chunk.len ==> {
            &&& chunk_byte(c, chunk, p) == raw[p]
            &&& !(chunk.kind == CHUNK_RAW && chunk.offset + (p - chunk.start) >= c.len())
        }
}

/// Blocks stand one after the other.
proof fn block_position(block_size: int, start: int, count: int, p: int)
    requires
        block_size > 0,
        start * block_size <= p < start * block_size + count * block_size,
    ensures
        start <= p / block_size < start + count,
        (p / block_size) * block_size <= p < (p / block_size + 1) * block_size,
        p - (p / block_size) * block_size == p % block_size,
{
    vstd::arithmetic::div_mod::lemma_fundamental_div_mod(p, block_size);
    let q = p / block_size;
    let r = p % block_size;
    assert(p == q * block_size + r && 0 <= r < block_size) by (nonlinear_arith)
        requires
            p == block_size * q + r,
            0 <= r < block_size,
    ;
    assert((q + 1) * block_size == q * block_size + block_size) by (nonlinear_arith);
    assert(q >= start) by (nonlinear_arith)
        requires
            start * block_size <= p,
            p < q * block_size + block_size,
            block_size > 0,
    ;
    assert(q < start + count) by (nonlinear_arith)
        requires
            p < start * block_size + count * block_size,
            q * block_size <= p,
            block_size > 0,
    ;
}

/// The position in its word of a byte of a block is that of the image.
proof fn word_position(block_size: int, q: int, p: int)
    requires
        block_size % 4 == 0,
    ensures
        (p - q * block_size) % 4 == p % 4,
{
    let k = block_size / 4;
    assert(q * block_size == 4 * (q * k)) by (nonlinear_arith)
        requires
            block_size == 4 * k,
    ;
}

/// Reading the encoding of one run gives a chunk with the bytes of the run.
proof fn run_reads_back(
    c: Seq<u8>,
    raw: Seq<u8>,
    block_size: int,
    blocks: int,
    i: int,
    pos: int,
    index: int,
)
    requires
        block_size % 4 == 0,
        0 < block_size <= 64 * 1024 * 1024,
        0 <= i < blocks <= u32::MAX,
        raw.len() == blocks * block_size,
        0 <= pos,
        c.len() <= u64::MAX,
        ({
            let run = run_at(raw, block_size, blocks, i);
            let data = run_bytes(raw, block_size, run);
            &&& run_payload(block_size, run) <= u32::MAX - 12
            &&& pos + data.len() <= c.len()
            &&& c.subrange(pos, pos + data.len()) == data
        }),
    ensures
        ({
            let run = run_at(raw, block_size, blocks, i);
            let data = run_bytes(raw, block_size, run);
            let chunk = run_chunk(block_size, run, pos);
            &&& chunk_at(c, pos, index, 12, block_size, i * block_size) == Ok::<
                (ChunkView, int),
                Fault,
            >((chunk, pos + data.len()))
            &&& faithful(c, raw, chunk)
            &&& run.count > 0
            &&& i + run.count <= blocks
            &&& known_kind(run.kind)
            &&& run.fill.len() == 4
            &&& run.kind == CHUNK_RAW ==> chunk.offset + chunk.len <= c.len()
        }),
{
    let run = run_at(raw, block_size, blocks, i);
    let data = run_bytes(raw, block_size, run);
    let chunk = run_chunk(block_size, run, pos);
    let b = block(raw, block_size, i);
    run_end_grows(raw, block_size, blocks, i, i + 1);
    assert((i + 1) * block_size == i * block_size + block_size) by (nonlinear_arith);
    assert((i + run.count) * block_size == i * block_size + run.count * block_size)
        by (nonlinear_arith);
    assert((i + run.count) * block_size <= blocks * block_size) by (nonlinear_arith)
        requires
            i + run.count <= blocks,
            block_size > 0,
    ;
    assert(i * block_size + block_size <= blocks * block_size) by (nonlinear_arith)
        requires
            i + 1 <= blocks,
            block_size > 0,
    ;
    assert(i * block_size >= 0) by (nonlinear_arith)
        requires
            i >= 0,
            block_size > 0,
    ;
    assert(run.count * block_size > 0) by (nonlinear_arith)
        requires
            run.count > 0,
            block_size > 0,
    ;
    assert(b.len() == block_size);
    assert(run.fill.len() == 4);
    let x = c.subrange(pos, pos + data.len());
    crate::buf::le_in_window(c, pos, x, 0);
    crate::buf::le_in_window(c, pos, x, 4);
    crate::buf::le_in_window(c, pos, x, 8);
    let payload = run_payload(block_size, run);
    assert(data.len() == 12 + payload);
    crate::buf::le16_of_bytes16(run.kind);
    crate::buf::le32_of_bytes32(run.count as u32);
    crate::buf::le32_of_bytes32((12 + payload) as u32);
    assert(le16(data, 0) == le16(bytes16(run.kind), 0));
    assert(le32(data, 4) == le32(bytes32(run.count as u32), 0));
    assert(le32(data, 8) == le32(bytes32((12 + payload) as u32), 0));
    if run.kind == CHUNK_FILL {
        assert(c.subrange(pos + 12, pos + 16) =~= run.fill) by {
            assert forall|k: int| 0 <= k < 4 implies c[pos + 12 + k] == run.fill[k] by {
                assert(x[12 + k] == data[12 + k]);
            }
        }
    }
    assert forall|p: int|
        #![trigger raw[p]]
        chunk.start <= p < chunk.start + chunk.len implies {
        &&& chunk_byte(c, chunk, p) == raw[p]
        &&& !(chunk.kind == CHUNK_RAW && chunk.offset + (p - chunk.start) >= c.len())
    } by {
        block_position(block_size, i, run.count, p);
        let q = p / block_size;
        let bq = block(raw, block_size, q);
        assert((q + 1) * block_size <= blocks * block_size) by (nonlinear_arith)
            requires
                q + 1 <= blocks,
                block_size > 0,
        ;
        assert(q * block_size >= 0) by (nonlinear_arith)
            requires
                q >= 0,
                block_size > 0,
        ;
        let o = p - q * block_size;
        assert((q + 1) * block_size == q * block_size + block_size) by (nonlinear_arith);
        assert(bq[o] == raw[p]);
        assert(classify(bq) == classify(b));
        if run.kind == CHUNK_RAW {
            assert(x[12 + (p - chunk.start)] == data[12 + (p - chunk.start)]);
        } else if run.kind == CHUNK_FILL {
            word_position(block_size, q, p);
            assert(bq.len() == block_size);
            assert(repeats_at(bq, o));
            assert(bq.subrange(0, 4)[o % 4] == bq[o % 4]);
        } else {
            assert(all_zero(bq));
        }
    }
}

/// Reading the encodings of the runs from block `i` on gives chunks with the
/// bytes of the image from there on.
proof fn runs_read_back(
    c: Seq<u8>,
    raw: Seq<u8>,
    block_size: int,
    blocks: int,
    i: int,
    pos: int,
    index: int,
    count: int,
) -> (chunks: Seq<ChunkView>)
    requires
        block_size % 4 == 0,
        0 < block_size <= 64 * 1024 * 1024,
        0 <= i <= blocks <= u32::MAX,
        raw.len() == blocks * block_size <= u64::MAX,
        0 <= pos,
        c.len() <= u64::MAX,
        count == index + runs_from(raw, block_size, blocks, i).len(),
        emitted(raw, block_size, runs_from(raw, block_size, blocks, i)) is Ok,
        ({
            let data = emitted(raw, block_size, runs_from(raw, block_size, blocks, i))->Ok_0;
            pos + data.len() == c.len() && c.subrange(pos, c.len() as int) == data
        }),
    ensures
        chunks_from(c, pos, index, count, 12, block_size, i * block_size) == Ok::<
            (Seq<ChunkView>, int),
            Fault,
        >((chunks, raw.len() as int)),
        contiguous(chunks, i * block_size, raw.len() as int),
        forall|j: int| 0 <= j < chunks.len() ==> faithful(c, raw, #[trigger] chunks[j]),
    decreases blocks - i,
{
    let runs = runs_from(raw, block_size, blocks, i);
    if i >= blocks {
        Seq::empty()
    } else {
        let run = run_at(raw, block_size, blocks, i);
        run_end_grows(raw, block_size, blocks, i, i + 1);
        let rest = runs_from(raw, block_size, blocks, i + run.count);
        assert(runs[0] == run);
        assert(runs.drop_first() =~= rest);
        let data = run_bytes(raw, block_size, run);
        let all = emitted(raw, block_size, runs)->Ok_0;
        let tail = emitted(raw, block_size, rest)->Ok_0;
        assert(all == data + tail);
        assert(c.subrange(pos, pos + data.len()) =~= data) by {
            assert forall|k: int| 0 <= k < data.len() implies c[pos + k] == data[k] by {
                assert(c.subrange(pos, c.len() as int)[k] == all[k]);
            }
        }
        let next = pos + data.len();
        assert(c.subrange(next, c.len() as int) =~= tail) by {
            assert forall|k: int| 0 <= k < tail.len() implies c[next + k] == tail[k] by {
                assert(c.subrange(pos, c.len() as int)[data.len() + k] == all[data.len() + k]);
            }
        }
        run_reads_back(c, raw, block_size, blocks, i, pos, index);
        let chunk = run_chunk(block_size, run, pos);
        assert((i + run.count) * block_size == i * block_size + run.count * block_size)
            by (nonlinear_arith);
        assert((i + run.count) * block_size <= blocks * block_size) by (nonlinear_arith)
            requires
                i + run.count <= blocks,
                block_size > 0,
        ;
        assert(run.count * block_size > 0) by (nonlinear_arith)
            requires
                run.count > 0,
                block_size > 0,
        ;
        let others = runs_read_back(
            c,
            raw,
            block_size,
            blocks,
            i + run.count,
            next,
            index + 1,
            count,
        );
        let chunks = seq![chunk] + others;
        assert(chunks.drop_first() =~= others);
        assert forall|j: int| 0 <= j < chunks.len() implies faithful(c, raw, #[trigger] chunks[j]) by {
            if j > 0 {
                assert(chunks[j] == others[j - 1]);
            }
        }
        chunks
    }
}

/// Chunks that give back the bytes of the image make up the image.
proof fn faithful_content(c: Seq<u8>, raw: Seq<u8>, v: SparseView)
    requires
        v.wf(),
        v.size == raw.len(),
        forall|j: int| 0 <= j < v.chunks.len() ==> faithful(c, raw, #[trigger] v.chunks[j]),
    ensures
        v.content(c) == raw,
        forall|p: int| 0 <= p < raw.len() ==> !#[trigger] v.lacks(c, p),
{
    assert forall|p: int| 0 <= p < raw.len() implies !#[trigger] v.lacks(c, p) && v.content(c)[p]
        == raw[p] by {
        let h = crate::image::holder_exists(v, p);
        let chunk = v.chunks[h];
        assert(faithful(c, raw, chunk));
        let b = raw[p];
        assert(chunk_byte(c, chunk, p) == b);
    }
    assert forall|p: int| 0 <= p < raw.len() implies v.content(c)[p] == raw[p] by {
        assert(!v.lacks(c, p));
    }
    assert(v.content(c) =~= raw);
}

/// The header fields are read back as they were written.
proof fn header_reads_back(block_size: int, blocks: int, chunks: int, data: Seq<u8>)
    requires
        0 <= block_size <= u32::MAX,
        0 <= blocks <= u32::MAX,
        0 <= chunks <= u32::MAX,
    ensures
        ({
            let head = sparse_header(block_size, blocks, chunks);
            let c = head + data;
            &&& head.len() == 28
            &&& le32(c, 0) == SPARSE_MAGIC
            &&& le16(c, 4) == 1
            &&& le16(c, 8) == 28
            &&& le16(c, 10) == 12
            &&& le32(c, 12) == block_size
            &&& le32(c, 16) == blocks
            &&& le32(c, 20) == chunks
        }),
{
    let head = sparse_header(block_size, blocks, chunks);
    let c = head + data;
    crate::buf::le32_of_bytes32(SPARSE_MAGIC);
    crate::buf::le16_of_bytes16(1);
    crate::buf::le16_of_bytes16(28);
    crate::buf::le16_of_bytes16(12);
    crate::buf::le32_of_bytes32(block_size as u32);
    crate::buf::le32_of_bytes32(blocks as u32);
    crate::buf::le32_of_bytes32(chunks as u32);
    assert(head.len() == 28);
    assert(le32(c, 0) == le32(bytes32(SPARSE_MAGIC), 0));
    assert(le16(c, 4) == le16(bytes16(1), 0));
    assert(le16(c, 8) == le16(bytes16(28), 0));
    assert(le16(c, 10) == le16(bytes16(12), 0));
    assert(le32(c, 12) == le32(bytes32(block_size as u32), 0));
    assert(le32(c, 16) == le32(bytes32(blocks as u32), 0));
    assert(le32(c, 20) == le32(bytes32(chunks as u32), 0));
}

/// Encoding a raw image as a sparse container and reading the container back
/// gives the image: the container is recognised, it is complete, and its
/// logical content is the image byte for byte.
pub proof fn sparse_round_trip(raw: Seq<u8>, block_size: int)
    requires
        block_size % 4 == 0,
        0 < block_size <= 64 * 1024 * 1024,
        raw.len() <= u64::MAX,
        sparse_container(raw, block_size) is Ok,
        sparse_container(raw, block_size)->Ok_0.len() <= u64::MAX,
    ensures
        is_sparse_container(sparse_container(raw, block_size)->Ok_0),
        ({
            let c = sparse_container(raw, block_size)->Ok_0;
            &&& sparse_of(c) matches Ok(v)
            &&& v.wf()
            &&& v.content(c) == raw
            &&& forall|p: int| 0 <= p < raw.len() ==> !#[trigger] v.lacks(c, p)
        }),
{
    let c = sparse_container(raw, block_size)->Ok_0;
    let blocks = raw.len() as int / block_size;
    let runs = runs_from(raw, block_size, blocks, 0);
    let data = emitted(raw, block_size, runs)->Ok_0;
    vstd::arithmetic::div_mod::lemma_fundamental_div_mod(raw.len() as int, block_size);
    assert(blocks * block_size == block_size * blocks) by (nonlinear_arith);
    assert(blocks >= 0) by (nonlinear_arith)
        requires
            raw.len() == block_size * blocks,
            block_size > 0,
    ;
    runs_are_few(raw, block_size, blocks, 0);
    let head = sparse_header(block_size, blocks, runs.len() as int);
    assert(c == head + data);
    header_reads_back(block_size, blocks, runs.len() as int, data);
    assert(c.subrange(28, c.len() as int) =~= data);
    assert(0 * block_size == 0);
    let chunks = runs_read_back(c, raw, block_size, blocks, 0, 28, 0, runs.len() as int);
    let v = SparseView { block_size, size: raw.len() as int, chunks };
    assert(sparse_of(c) == Ok::<SparseView, Fault>(v));
    faithful_content(c, raw, v);
}

/// There are no more runs than blocks.
proof fn runs_are_few(raw: Seq<u8>, block_size: int, blocks: int, i: int)
    requires
        i <= blocks,
    ensures
        runs_from(raw, block_size, blocks, i).len() <= blocks - i,
    decreases blocks - i,
{
    if i < blocks {
        run_end_grows(raw, block_size, blocks, i, i + 1);
        let run = run_at(raw, block_size, blocks, i);
        runs_are_few(raw, block_size, blocks, i + run.count);
    }
}

} // verus!
