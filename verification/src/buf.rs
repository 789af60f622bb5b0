//! Bounds-checked little-endian access to on-disk structures.
//!
//! Every reader returns an error instead of panicking, so a corrupted image
//! gives a clean error from any layer.
use crate::error::{fail, seen, Error, Fault};
use crate::text::{dec, push_numeral, with_number};
use vstd::prelude::*;

verus! {

// ---------------------------------------------------------------------
// Little-endian numbers in a byte sequence
// ---------------------------------------------------------------------
/// The 16-bit number at `o`.
pub open spec fn le16(s: Seq<u8>, o: int) -> u16 {
    (s[o] + 0x100 * s[o + 1]) as u16
}

/// The 32-bit number at `o`.
pub open spec fn le32(s: Seq<u8>, o: int) -> u32 {
    (s[o] + 0x100 * s[o + 1] + 0x1_0000 * s[o + 2] + 0x100_0000 * s[o + 3]) as u32
}

/// The 64-bit number at `o`.
pub open spec fn le64(s: Seq<u8>, o: int) -> u64 {
    (le32(s, o) + 0x1_0000_0000 * le32(s, o + 4)) as u64
}

/// The two bytes of a 16-bit number.
pub open spec fn bytes16(v: u16) -> Seq<u8> {
    seq![(v % 0x100) as u8, (v / 0x100) as u8]
}

/// The four bytes of a 32-bit number.
pub open spec fn bytes32(v: u32) -> Seq<u8> {
    seq![
        (v % 0x100) as u8,
        (v / 0x100 % 0x100) as u8,
        (v / 0x1_0000 % 0x100) as u8,
        (v / 0x100_0000) as u8,
    ]
}

/// The eight bytes of a 64-bit number.
pub open spec fn bytes64(v: u64) -> Seq<u8> {
    bytes32((v % 0x1_0000_0000) as u32) + bytes32((v / 0x1_0000_0000) as u32)
}

/// Reading back a written 16-bit number gives the number.
pub proof fn le16_of_bytes16(v: u16)
    ensures
        bytes16(v).len() == 2,
        le16(bytes16(v), 0) == v,
{
}

/// Reading back a written 32-bit number gives the number.
pub proof fn le32_of_bytes32(v: u32)
    ensures
        bytes32(v).len() == 4,
        le32(bytes32(v), 0) == v,
{
}

/// Reading back a written 64-bit number gives the number.
pub proof fn le64_of_bytes64(v: u64)
    ensures
        bytes64(v).len() == 8,
        le64(bytes64(v), 0) == v,
{
    let lo = (v % 0x1_0000_0000) as u32;
    let hi = (v / 0x1_0000_0000) as u32;
    le32_of_bytes32(lo);
    le32_of_bytes32(hi);
    assert(le32(bytes64(v), 0) == le32(bytes32(lo), 0));
    assert(le32(bytes64(v), 4) == le32(bytes32(hi), 0));
}

/// A number read from a window of a sequence is the one that stands there in
/// the sequence.
pub proof fn le_in_window(c: Seq<u8>, p: int, x: Seq<u8>, o: int)
    requires
        0 <= p,
        0 <= o,
        p + x.len() <= c.len(),
        x == c.subrange(p, p + x.len()),
    ensures
        o + 2 <= x.len() ==> le16(x, o) == le16(c, p + o),
        o + 4 <= x.len() ==> le32(x, o) == le32(c, p + o),
        o + 8 <= x.len() ==> le64(x, o) == le64(c, p + o),
{
    assert(forall|i: int| 0 <= i < x.len() ==> #[trigger] x[i] == c[p + i]);
}

/// A 16-bit number that stands in a sequence reads back.
pub proof fn le16_stands(x: Seq<u8>, at: int, v: u16)
    requires
        0 <= at,
        at + 2 <= x.len(),
        x.subrange(at, at + 2) == bytes16(v),
    ensures
        le16(x, at) == v,
{
    le16_of_bytes16(v);
    le_in_window(x, at, x.subrange(at, at + 2), 0);
}

/// A 32-bit number that stands in a sequence reads back.
pub proof fn le32_stands(x: Seq<u8>, at: int, v: u32)
    requires
        0 <= at,
        at + 4 <= x.len(),
        x.subrange(at, at + 4) == bytes32(v),
    ensures
        le32(x, at) == v,
{
    le32_of_bytes32(v);
    le_in_window(x, at, x.subrange(at, at + 4), 0);
}

/// A 64-bit number that stands in a sequence reads back.
pub proof fn le64_stands(x: Seq<u8>, at: int, v: u64)
    requires
        0 <= at,
        at + 8 <= x.len(),
        x.subrange(at, at + 8) == bytes64(v),
    ensures
        le64(x, at) == v,
{
    le64_of_bytes64(v);
    le_in_window(x, at, x.subrange(at, at + 8), 0);
}

// ---------------------------------------------------------------------
// Checked readers
// ---------------------------------------------------------------------
/// What reading a 16-bit number yields.
pub open spec fn read16(s: Seq<u8>, o: int) -> Result<u16, Fault> {
    if o + 2 <= s.len() {
        Ok(le16(s, o))
    } else {
        fail("truncated structure: missing u16 at "@ + dec(o) + ""@)
    }
}

/// What reading a 32-bit number yields.
pub open spec fn read32(s: Seq<u8>, o: int) -> Result<u32, Fault> {
    if o + 4 <= s.len() {
        Ok(le32(s, o))
    } else {
        fail("truncated structure: missing u32 at "@ + dec(o) + ""@)
    }
}

/// What reading a 64-bit number yields.
pub open spec fn read64(s: Seq<u8>, o: int) -> Result<u64, Fault> {
    if o + 8 <= s.len() {
        Ok(le64(s, o))
    } else {
        fail("truncated structure: missing u64 at "@ + dec(o) + ""@)
    }
}

/// What borrowing a range of bytes yields.
pub open spec fn read_bytes(s: Seq<u8>, o: int, n: int) -> Result<Seq<u8>, Fault> {
    if o + n > usize::MAX {
        fail("byte range overflow"@)
    } else if o + n <= s.len() {
        Ok(s.subrange(o, o + n))
    } else {
        fail("truncated structure: missing "@ + dec(n) + " bytes at "@ + dec(o))
    }
}

/// Read a `u16` at `offset`, failing cleanly when out of bounds.
pub fn u16le(data: &[u8], offset: usize) -> (r: Result<u16, Error>)
    ensures
        seen(r) == read16(data@, offset as int),
{
    if data.len() >= 2 && offset <= data.len() - 2 {
        Ok(data[offset] as u16 + 0x100 * (data[offset + 1] as u16))
    } else {
        Err(Error::Invalid(with_number("truncated structure: missing u16 at ", offset as u64, "")))
    }
}

/// Read a `u32` at `offset`, failing cleanly when out of bounds.
pub fn u32le(data: &[u8], offset: usize) -> (r: Result<u32, Error>)
    ensures
        seen(r) == read32(data@, offset as int),
{
    if data.len() >= 4 && offset <= data.len() - 4 {
        Ok(get32(data, offset))
    } else {
        Err(Error::Invalid(with_number("truncated structure: missing u32 at ", offset as u64, "")))
    }
}

/// Read a `u64` at `offset`, failing cleanly when out of bounds.
pub fn u64le(data: &[u8], offset: usize) -> (r: Result<u64, Error>)
    ensures
        seen(r) == read64(data@, offset as int),
{
    if data.len() >= 8 && offset <= data.len() - 8 {
        Ok(get64(data, offset))
    } else {
        Err(Error::Invalid(with_number("truncated structure: missing u64 at ", offset as u64, "")))
    }
}

/// Borrow `len` bytes at `offset`, failing cleanly when out of bounds.
pub fn bytes(data: &[u8], offset: usize, len: usize) -> (r: Result<&[u8], Error>)
    ensures
        match r {
            Ok(v) => read_bytes(data@, offset as int, len as int) == Ok::<Seq<u8>, Fault>(v@),
            Err(e) => read_bytes(data@, offset as int, len as int) == Err::<Seq<u8>, Fault>(e@),
        },
{
    let end = match offset.checked_add(len) {
        Some(end) => end,
        None => {
            return Err(Error::invalid("byte range overflow"));
        },
    };
    if end <= data.len() {
        Ok(&data[offset..end])
    } else {
        let mut text = with_number("truncated structure: missing ", len as u64, " bytes at ");
        push_numeral(&mut text, offset as u64, 10);
        Err(Error::Invalid(text))
    }
}

// ---------------------------------------------------------------------
// Readers and writers at offsets that are known to be in bounds
// ---------------------------------------------------------------------
/// The 16-bit number at an offset in bounds.
pub fn get16(data: &[u8], o: usize) -> (v: u16)
    requires
        o + 2 <= data.len(),
    ensures
        v == le16(data@, o as int),
{
    data[o] as u16 + 0x100 * (data[o + 1] as u16)
}

/// The 32-bit number at an offset in bounds.
pub fn get32(data: &[u8], o: usize) -> (v: u32)
    requires
        o + 4 <= data.len(),
    ensures
        v == le32(data@, o as int),
{
    data[o] as u32 + 0x100 * (data[o + 1] as u32) + 0x1_0000 * (data[o + 2] as u32) + 0x100_0000 * (
    data[o + 3] as u32)
}

/// The 64-bit number at an offset in bounds.
pub fn get64(data: &[u8], o: usize) -> (v: u64)
    requires
        o + 8 <= data.len(),
    ensures
        v == le64(data@, o as int),
{
    let lo = get32(data, o) as u64;
    let hi = get32(data, o + 4) as u64;
    lo + 0x1_0000_0000 * hi
}

/// `s` with the bytes from `at` on replaced by `v`.
pub open spec fn splice(s: Seq<u8>, at: int, v: Seq<u8>) -> Seq<u8> {
    Seq::new(s.len(), |i: int| if at <= i < at + v.len() { v[i - at] } else { s[i] })
}

/// Appends a 16-bit number.
pub fn push16(out: &mut Vec<u8>, v: u16)
    ensures
        final(out)@ == old(out)@ + bytes16(v),
{
    out.push((v % 0x100) as u8);
    out.push((v / 0x100) as u8);
    assert(out@ =~= old(out)@ + bytes16(v));
}

/// Appends a 32-bit number.
pub fn push32(out: &mut Vec<u8>, v: u32)
    ensures
        final(out)@ == old(out)@ + bytes32(v),
{
    out.push((v % 0x100) as u8);
    out.push((v / 0x100 % 0x100) as u8);
    out.push((v / 0x1_0000 % 0x100) as u8);
    out.push((v / 0x100_0000) as u8);
    assert(out@ =~= old(out)@ + bytes32(v));
}

/// Appends a 64-bit number.
pub fn push64(out: &mut Vec<u8>, v: u64)
    ensures
        final(out)@ == old(out)@ + bytes64(v),
{
    push32(out, (v % 0x1_0000_0000) as u32);
    push32(out, (v / 0x1_0000_0000) as u32);
    assert(out@ =~= old(out)@ + bytes64(v));
}

/// Appends bytes.
pub fn push_bytes(out: &mut Vec<u8>, v: &[u8])
    ensures
        final(out)@ == old(out)@ + v@,
{
    out.extend_from_slice(v);
    assert(out@ =~= old(out)@ + v@);
}

/// A run of equal bytes.
pub open spec fn repeated(n: nat, v: u8) -> Seq<u8> {
    Seq::new(n, |i: int| v)
}

/// A run of zero bytes.
pub open spec fn zeros(n: int) -> Seq<u8> {
    repeated(if n >= 0 { n as nat } else { 0 }, 0)
}

/// `n` zero bytes.
pub fn zeroed(n: usize) -> (v: Vec<u8>)
    ensures
        v@ == zeros(n as int),
{
    let v = vec![0u8; n];
    assert(v@ =~= zeros(n as int));
    v
}

/// Extends `out` with zero bytes to the given length.
pub fn pad_to(out: &mut Vec<u8>, n: usize)
    requires
        old(out)@.len() <= n,
    ensures
        final(out)@ == old(out)@ + zeros(n - old(out)@.len()),
{
    out.resize(n, 0);
    assert forall|i: int| 0 <= i < old(out)@.len() implies out@[i] == old(out)@[i] by {
        if n > old(out)@.len() {
            assert(out@.subrange(0, old(out)@.len() as int)[i] == old(out)@[i]);
        }
    }
    assert(out@ =~= old(out)@ + zeros(n - old(out)@.len()));
}

/// Overwrites the bytes from `at` on.
pub fn put(out: &mut Vec<u8>, at: usize, v: &[u8])
    requires
        at + v@.len() <= old(out).len(),
    ensures
        final(out)@ == splice(old(out)@, at as int, v@),
{
    let mut i: usize = 0;
    while i < v.len()
        invariant
            i <= v.len(),
            at + v@.len() <= old(out).len(),
            out.len() == old(out).len(),
            out@ == splice(old(out)@, at as int, v@.take(i as int)),
        decreases v.len() - i,
    {
        out.set(at + i, v[i]);
        i += 1;
        assert(out@ =~= splice(old(out)@, at as int, v@.take(i as int)));
    }
    assert(v@.take(i as int) =~= v@);
}

/// Overwrites a 32-bit number.
pub fn put32(out: &mut Vec<u8>, at: usize, v: u32)
    requires
        at + 4 <= old(out).len(),
    ensures
        final(out)@ == splice(old(out)@, at as int, bytes32(v)),
{
    out.set(at, (v % 0x100) as u8);
    out.set(at + 1, (v / 0x100 % 0x100) as u8);
    out.set(at + 2, (v / 0x1_0000 % 0x100) as u8);
    out.set(at + 3, (v / 0x100_0000) as u8);
    assert(out@ =~= splice(old(out)@, at as int, bytes32(v)));
}

/// A copy of part of a slice.
pub fn copy_range(data: &[u8], from: usize, to: usize) -> (v: Vec<u8>)
    requires
        from <= to <= data@.len(),
    ensures
        v@ == data@.subrange(from as int, to as int),
{
    let mut v: Vec<u8> = Vec::with_capacity(to - from);
    v.extend_from_slice(&data[from..to]);
    assert(v@ =~= data@.subrange(from as int, to as int));
    v
}

} // verus!
