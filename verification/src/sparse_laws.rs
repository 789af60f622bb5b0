//! What a sparse container holds, said of the chunks that it is made of, and what
//! runs an image is divided into.
use crate::buf::{bytes16, bytes32, le16_stands, le32_stands, zeros};
use crate::error::Fault;
use crate::image::{
    chunk_at, chunk_byte, chunks_from, contiguous, holder_exists, is_sparse_container, sparse_of,
    ChunkView, SparseView, SPARSE_MAX_RAW_RUN,
};
use crate::sparse::{
    all_zero, block, classify, repeats, repeats_at, run_at, run_end, run_end_grows, runs_from,
    RunView,
};
use vstd::prelude::*;

verus! {

/// A chunk of a container: what kind it is of, how many blocks of the image it
/// stands for, and its data.
pub struct Piece {
    pub kind: u16,
    pub blocks: u32,
    pub data: Seq<u8>,
}

impl Piece {
    /// The chunk is one of those that hold a part of an image: bytes as they are,
    /// four bytes that are repeated, or nothing.
    pub open spec fn sound(self, block_size: int) -> bool {
        &&& self.blocks > 0
        &&& self.kind == 0xcac1 && self.data.len() == self.blocks * block_size || self.kind
            == 0xcac2 && self.data.len() == 4 || self.kind == 0xcac3 && self.data.len() == 0
    }

    /// The part of the image that the chunk stands for.
    pub open spec fn content(self, block_size: int) -> Seq<u8> {
        if self.kind == 0xcac1 {
            self.data
        } else if self.kind == 0xcac2 {
            Seq::new((self.blocks * block_size) as nat, |i: int| self.data[i % 4])
        } else {
            Seq::new((self.blocks * block_size) as nat, |i: int| 0u8)
        }
    }

    /// The chunk stands at a place, behind a header of so many bytes.
    pub open spec fn stands(self, c: Seq<u8>, at: int, header: int) -> bool {
        &&& 0 <= at
        &&& at + header + self.data.len() <= c.len()
        &&& header + self.data.len() <= u32::MAX
        &&& c.subrange(at, at + 2) == bytes16(self.kind)
        &&& c.subrange(at + 4, at + 8) == bytes32(self.blocks)
        &&& c.subrange(at + 8, at + 12) == bytes32((header + self.data.len()) as u32)
        &&& c.subrange(at + header, at + header + self.data.len()) == self.data
    }
}

/// The chunks stand one behind the other.
pub open spec fn pieces_stand(c: Seq<u8>, at: int, header: int, s: Seq<Piece>) -> bool
    decreases s.len(),
{
    s.len() > 0 ==> s[0].stands(c, at, header) && pieces_stand(
        c,
        at + header + s[0].data.len(),
        header,
        s.drop_first(),
    )
}

/// The image that chunks stand for.
pub open spec fn image_of(s: Seq<Piece>, block_size: int) -> Seq<u8>
    decreases s.len(),
{
    if s.len() == 0 {
        Seq::empty()
    } else {
        s[0].content(block_size) + image_of(s.drop_first(), block_size)
    }
}

/// The bytes of a chunk are those of `x`, which starts at `start` of the image.
spec fn holds_part(c: Seq<u8>, chunk: ChunkView, start: int, x: Seq<u8>) -> bool {
    &&& start <= chunk.start
    &&& chunk.start + chunk.len <= start + x.len()
    &&& forall|q: int|
        chunk.start <= q < chunk.start + chunk.len ==> #[trigger] chunk_byte(c, chunk, q) == x[q
            - start]
}

/// The bytes of all chunks are those of `x`.
#[verifier::opaque]
spec fn hold_parts(c: Seq<u8>, s: Seq<ChunkView>, start: int, x: Seq<u8>) -> bool {
    forall|i: int| 0 <= i < s.len() ==> holds_part(c, #[trigger] s[i], start, x)
}

proof fn parts_join(
    c: Seq<u8>,
    first: ChunkView,
    more: Seq<ChunkView>,
    start: int,
    x: Seq<u8>,
    y: Seq<u8>,
)
    requires
        holds_part(c, first, start, x),
        hold_parts(c, more, start + x.len(), y),
    ensures
        hold_parts(c, seq![first] + more, start, x + y),
{
    reveal(hold_parts);
    let s = seq![first] + more;
    part_widens(c, first, start, x, y);
    assert forall|i: int| 0 <= i < s.len() implies holds_part(c, #[trigger] s[i], start, x + y) by {
        if i > 0 {
            assert(s[i] == more[i - 1]);
            part_moves(c, more[i - 1], start, x, y);
        }
    }
}

proof fn part_widens(c: Seq<u8>, chunk: ChunkView, start: int, x: Seq<u8>, y: Seq<u8>)
    requires
        holds_part(c, chunk, start, x),
    ensures
        holds_part(c, chunk, start, x + y),
{
}

proof fn part_moves(c: Seq<u8>, chunk: ChunkView, start: int, x: Seq<u8>, y: Seq<u8>)
    requires
        holds_part(c, chunk, start + x.len(), y),
    ensures
        holds_part(c, chunk, start, x + y),
{
    assert forall|q: int| chunk.start <= q < chunk.start + chunk.len implies #[trigger] chunk_byte(
        c,
        chunk,
        q,
    ) == (x + y)[q - start] by {
        assert(chunk_byte(c, chunk, q) == y[q - (start + x.len())]);
    }
}

proof fn one_piece(
    c: Seq<u8>,
    at: int,
    index: int,
    header: int,
    block_size: int,
    start: int,
    p: Piece,
) -> (chunk: ChunkView)
    requires
        p.stands(c, at, header),
        p.sound(block_size),
        12 <= header,
        0 < block_size,
        c.len() <= u64::MAX,
        0 <= start,
        start % 4 == 0,
    ensures
        chunk_at(c, at, index, header, block_size, start) == Ok::<(ChunkView, int), Fault>(
            (chunk, at + header + p.data.len()),
        ),
        chunk.start == start,
        chunk.len == p.blocks * block_size,
        chunk.len > 0,
        chunk.len == p.content(block_size).len(),
        chunk.offset >= 0,
        chunk.fill.len() == 4,
        chunk.kind == p.kind,
        chunk.kind == 0xcac1 ==> chunk.offset + chunk.len <= c.len(),
        holds_part(c, chunk, start, p.content(block_size)),
{
    le16_stands(c, at, p.kind);
    le32_stands(c, at + 4, p.blocks);
    le32_stands(c, at + 8, (header + p.data.len()) as u32);
    let n = p.blocks * block_size;
    assert(n > 0) by (nonlinear_arith)
        requires
            n == p.blocks * block_size,
            p.blocks > 0,
            block_size > 0,
    ;
    let chunk = ChunkView {
        kind: p.kind,
        start,
        len: n,
        offset: at + header,
        fill: if p.kind == 0xcac2 {
            c.subrange(at + header, at + header + 4)
        } else {
            zeros(4)
        },
    };
    assert forall|q: int| start <= q < start + chunk.len implies #[trigger] chunk_byte(c, chunk, q)
        == p.content(block_size)[q - start] by {
        if p.kind == 0xcac1 {
            assert(c.subrange(at + header, at + header + n)[q - start] == c[at + header + (q
                - start)]);
        } else if p.kind == 0xcac2 {
            assert(chunk.fill == p.data);
            assert(q % 4 == (q - start) % 4);
        }
    }
    chunk
}

/// The chunks that are read from a container.
proof fn all_pieces(
    c: Seq<u8>,
    at: int,
    index: int,
    header: int,
    block_size: int,
    start: int,
    s: Seq<Piece>,
) -> (chunks: Seq<ChunkView>)
    requires
        pieces_stand(c, at, header, s),
        forall|i: int| 0 <= i < s.len() ==> (#[trigger] s[i]).sound(block_size),
        12 <= header,
        0 < block_size,
        block_size % 4 == 0,
        c.len() <= u64::MAX,
        0 <= start,
        start % 4 == 0,
        start + image_of(s, block_size).len() <= u64::MAX,
    ensures
        ({
            let end = start + image_of(s, block_size).len();
            &&& chunks_from(
                c,
                at,
                index,
                index + s.len(),
                header,
                block_size,
                start,
            ) == Ok::<(Seq<ChunkView>, int), Fault>((chunks, end))
            &&& contiguous(chunks, start, end)
        }),
        hold_parts(c, chunks, start, image_of(s, block_size)),
    decreases s.len(),
{
    if s.len() == 0 {
        reveal(hold_parts);
        Seq::empty()
    } else {
        let p = s[0];
        assert(p.sound(block_size));
        let first = one_piece(c, at, index, header, block_size, start, p);
        let rest = s.drop_first();
        let next = at + header + p.data.len();
        let n = first.len;
        assert(n % 4 == 0) by {
            whole_words(p.blocks as int, block_size);
        }
        assert forall|i: int| 0 <= i < rest.len() implies (#[trigger] rest[i]).sound(
            block_size,
        ) by {
            assert(rest[i] == s[i + 1]);
        }
        let more = all_pieces(c, next, index + 1, header, block_size, start + n, rest);
        let chunks = seq![first] + more;
        assert(index + s.len() == index + 1 + rest.len());
        assert(chunks.drop_first() =~= more);
        parts_join(c, first, more, start, p.content(block_size), image_of(rest, block_size));
        chunks
    }
}

proof fn whole_words(blocks: int, block_size: int)
    requires
        block_size % 4 == 0,
    ensures
        (blocks * block_size) % 4 == 0,
{
    let k = block_size / 4;
    assert(blocks * block_size == 4 * (blocks * k)) by (nonlinear_arith)
        requires
            block_size == 4 * k,
    ;
    assert((4 * (blocks * k)) % 4 == 0);
}

/// A container holds the image that its chunks stand for: behind a header that
/// says how long the headers are, how large a block is, and how many blocks and
/// chunks there are, the chunks stand one behind the other.
pub proof fn containers_hold_their_chunks(
    c: Seq<u8>,
    file_header: u16,
    header: u16,
    block_size: u32,
    blocks: u32,
    s: Seq<Piece>,
)
    requires
        c.len() <= u64::MAX,
        28 <= file_header,
        file_header <= c.len(),
        12 <= header <= 1024,
        0 < block_size <= 64 * 1024 * 1024,
        block_size % 4 == 0,
        s.len() <= u32::MAX,
        c.subrange(0, 4) == bytes32(0xed26_ff3a),
        c.subrange(4, 6) == bytes16(1),
        c.subrange(8, 10) == bytes16(file_header),
        c.subrange(10, 12) == bytes16(header),
        c.subrange(12, 16) == bytes32(block_size),
        c.subrange(16, 20) == bytes32(blocks),
        c.subrange(20, 24) == bytes32(s.len() as u32),
        forall|i: int| 0 <= i < s.len() ==> (#[trigger] s[i]).sound(block_size as int),
        pieces_stand(c, file_header as int, header as int, s),
        image_of(s, block_size as int).len() <= u64::MAX,
    ensures
        is_sparse_container(c),
        if blocks * block_size == image_of(s, block_size as int).len() {
            sparse_of(c) matches Ok(v) && v.wf() && v.content(c) == image_of(s, block_size as int)
        } else {
            sparse_of(c) is Err
        },
{
    le32_stands(c, 0, 0xed26_ff3a);
    le16_stands(c, 4, 1);
    le16_stands(c, 8, file_header);
    le16_stands(c, 10, header);
    le32_stands(c, 12, block_size);
    le32_stands(c, 16, blocks);
    le32_stands(c, 20, s.len() as u32);
    let bs = block_size as int;
    let whole = image_of(s, bs);
    let chunks = all_pieces(c, file_header as int, 0, header as int, bs, 0, s);
    if blocks * block_size == whole.len() {
        let v = SparseView { block_size: bs, size: whole.len() as int, chunks };
        assert(sparse_of(c) == Ok::<SparseView, Fault>(v));
        assert forall|q: int| 0 <= q < whole.len() implies v.content(c)[q] == whole[q] by {
            let i = holder_exists(v, q);
            reveal(hold_parts);
            assert(holds_part(c, chunks[i], 0, whole));
            assert(chunk_byte(c, chunks[i], q) == whole[q - 0]);
        }
        assert(v.content(c) =~= whole);
    }
}

// ---------------------------------------------------------------------
// Scans
// ---------------------------------------------------------------------
/// Whether a block of an image has zeros only.
pub open spec fn is_blank(c: Seq<u8>, block_size: int, j: int) -> bool {
    forall|q: int| 0 <= q < block_size ==> #[trigger] c[j * block_size + q] == 0
}

/// Whether a block of an image repeats four bytes.
pub open spec fn is_filled(c: Seq<u8>, block_size: int, j: int, fill: Seq<u8>) -> bool {
    forall|q: int| 0 <= q < block_size ==> #[trigger] c[j * block_size + q] == fill[q % 4]
}

/// Whether a block belongs in a run: a run that says nothing is for blank
/// blocks, one that fills for others that repeat its four bytes, and one that
/// has the bytes for those that repeat none.
pub open spec fn belongs(c: Seq<u8>, block_size: int, run: RunView, j: int) -> bool {
    if run.kind == 0xcac3 {
        is_blank(c, block_size, j)
    } else if run.kind == 0xcac2 {
        !is_blank(c, block_size, j) && run.fill.len() == 4 && is_filled(
            c,
            block_size,
            j,
            run.fill,
        )
    } else {
        run.kind == 0xcac1 && !is_blank(c, block_size, j) && !is_filled(
            c,
            block_size,
            j,
            c.subrange(j * block_size, j * block_size + 4),
        )
    }
}

/// Whether the blocks of a run belong in it, and the one behind it does not; a
/// run that has the bytes also ends when it is long.
pub open spec fn is_right(c: Seq<u8>, block_size: int, blocks: int, run: RunView) -> bool {
    &&& 0 < run.count
    &&& run.start + run.count <= blocks
    &&& forall|j: int|
        run.start <= j < run.start + run.count ==> #[trigger] belongs(c, block_size, run, j)
    &&& run.start + run.count < blocks && (run.kind == 0xcac1 ==> run.count < SPARSE_MAX_RAW_RUN)
        ==> !belongs(c, block_size, run, run.start + run.count)
}

proof fn classes_belong(c: Seq<u8>, block_size: int, blocks: int, i: int, j: int, run: RunView)
    requires
        4 <= block_size,
        block_size % 4 == 0,
        c.len() == blocks * block_size,
        0 <= i < blocks,
        0 <= j < blocks,
        (run.kind, run.fill) == classify(block(c, block_size, i)),
    ensures
        belongs(c, block_size, run, j) <==> classify(block(c, block_size, j)) == (
            run.kind,
            run.fill,
        ),
{
    assert(0 <= j * block_size && (j + 1) * block_size <= c.len() && (j + 1) * block_size == j
        * block_size + block_size) by (nonlinear_arith)
        requires
            0 <= j < blocks,
            4 <= block_size,
            c.len() == blocks * block_size,
    ;
    assert(0 <= i * block_size && (i + 1) * block_size <= c.len() && (i + 1) * block_size == i
        * block_size + block_size) by (nonlinear_arith)
        requires
            0 <= i < blocks,
            4 <= block_size,
            c.len() == blocks * block_size,
    ;
    let b = block(c, block_size, j);
    let at = j * block_size;
    let own = c.subrange(at, at + 4);
    assert(b.len() == block_size);
    assert(own =~= b.subrange(0, 4));
    assert(is_blank(c, block_size, j) == all_zero(b)) by {
        if is_blank(c, block_size, j) {
            assert forall|q: int| 0 <= q < b.len() implies b[q] == 0 by {
                assert(c[j * block_size + q] == 0);
            }
        }
        if all_zero(b) {
            assert forall|q: int| 0 <= q < block_size implies #[trigger] c[j * block_size + q]
                == 0 by {
                assert(b[q] == 0);
            }
        }
    }
    words_repeat(c, block_size, j, own);
    if run.kind == 0xcac2 {
        assert(run.fill =~= block(c, block_size, i).subrange(0, 4));
        words_repeat(c, block_size, j, run.fill);
    }
}

proof fn words_repeat(c: Seq<u8>, block_size: int, j: int, fill: Seq<u8>)
    requires
        4 <= block_size,
        block_size % 4 == 0,
        0 <= j * block_size,
        (j + 1) * block_size == j * block_size + block_size,
        (j + 1) * block_size <= c.len(),
        fill.len() == 4,
    ensures
        is_filled(c, block_size, j, fill) <==> repeats(block(c, block_size, j)) && fill =~= block(
            c,
            block_size,
            j,
        ).subrange(0, 4),
{
    let b = block(c, block_size, j);
    if is_filled(c, block_size, j, fill) {
        assert forall|q: int| 0 <= q < 4 implies #[trigger] fill[q] == b.subrange(0, 4)[q] by {
            assert(c[j * block_size + q] == fill[q % 4]);
        }
        assert forall|q: int| 0 <= q < b.len() - b.len() % 4 implies #[trigger] repeats_at(b, q) by {
            assert(c[j * block_size + q] == fill[q % 4]);
            assert(c[j * block_size + q % 4] == fill[(q % 4) % 4]);
        }
    }
    if repeats(b) && fill =~= b.subrange(0, 4) {
        assert forall|q: int| 0 <= q < block_size implies #[trigger] c[j * block_size + q]
            == fill[q % 4] by {
            assert(repeats_at(b, q));
            assert(b[q] == b[q % 4]);
            assert(fill[q % 4] == b.subrange(0, 4)[q % 4]);
        }
    }
}

/// A scan goes through an image from its first block to its last. Every block
/// is in the kind of run that it belongs in, and no run could go on: blank
/// blocks never take room, and blocks that repeat four bytes take them once.
pub proof fn scans_find_the_longest_runs(c: Seq<u8>, block_size: int, blocks: int, from: int)
    requires
        4 <= block_size,
        block_size % 4 == 0,
        c.len() == blocks * block_size,
        0 <= from <= blocks,
    ensures
        ({
            let runs = runs_from(c, block_size, blocks, from);
            &&& forall|k: int|
                0 <= k < runs.len() ==> is_right(c, block_size, blocks, #[trigger] runs[k])
            &&& runs.len() == 0 ==> from == blocks
            &&& runs.len() > 0 ==> runs[0].start == from && runs.last().start + runs.last().count
                == blocks
            &&& forall|k: int|
                0 < k < runs.len() ==> (#[trigger] runs[k]).start == runs[k - 1].start + runs[k
                    - 1].count
        }),
    decreases blocks - from,
{
    if from < blocks {
        let run = run_at(c, block_size, blocks, from);
        let runs = runs_from(c, block_size, blocks, from);
        run_end_grows(c, block_size, blocks, from, from + 1);
        first_run_is_right(c, block_size, blocks, from);
        let rest = runs_from(c, block_size, blocks, from + run.count);
        scans_find_the_longest_runs(c, block_size, blocks, from + run.count);
        assert(runs =~= seq![run] + rest);
        assert forall|k: int| 0 <= k < runs.len() implies is_right(
            c,
            block_size,
            blocks,
            #[trigger] runs[k],
        ) by {
            if k > 0 {
                assert(runs[k] == rest[k - 1]);
            }
        }
        assert forall|k: int| 0 < k < runs.len() implies (#[trigger] runs[k]).start == runs[k
            - 1].start + runs[k - 1].count by {
            assert(runs[k] == rest[k - 1]);
            if k > 1 {
                assert(runs[k - 1] == rest[k - 2]);
            }
        }
        if rest.len() > 0 {
            assert(runs.last() == rest.last());
        }
    }
}

proof fn first_run_is_right(c: Seq<u8>, block_size: int, blocks: int, i: int)
    requires
        4 <= block_size,
        block_size % 4 == 0,
        c.len() == blocks * block_size,
        0 <= i < blocks,
    ensures
        is_right(c, block_size, blocks, run_at(c, block_size, blocks, i)),
{
    let run = run_at(c, block_size, blocks, i);
    run_end_grows(c, block_size, blocks, i, i + 1);
    runs_stop(c, block_size, blocks, i, i + 1);
    assert forall|j: int| run.start <= j < run.start + run.count implies #[trigger] belongs(
        c,
        block_size,
        run,
        j,
    ) by {
        classes_belong(c, block_size, blocks, i, j, run);
        if j > i {
            assert(classify(block(c, block_size, j)) == classify(block(c, block_size, i)));
        }
    }
    if run.start + run.count < blocks {
        classes_belong(c, block_size, blocks, i, run.start + run.count, run);
    }
}

/// A run stops at the end of the image, at a block of another class, or when it
/// is long.
proof fn runs_stop(c: Seq<u8>, block_size: int, blocks: int, start: int, i: int)
    requires
        i <= blocks,
    ensures
        ({
            let end = run_end(c, block_size, blocks, start, i);
            let class = classify(block(c, block_size, start));
            end < blocks && (class.0 == 0xcac1 ==> end - start < SPARSE_MAX_RAW_RUN) ==> classify(
                block(c, block_size, end),
            ) != class
        }),
    decreases blocks - i,
{
    let class = classify(block(c, block_size, start));
    if i < blocks && (class.0 == 0xcac1 ==> i - start < SPARSE_MAX_RAW_RUN) && classify(
        block(c, block_size, i),
    ) == class {
        runs_stop(c, block_size, blocks, start, i + 1);
    }
}

} // verus!
