use image_worker::buf::{bytes, u16le, u32le, u64le};
use image_worker::error::Error;
use image_worker::image::{Image, Memory, SparseImage};
use image_worker::sparse::{scan_sparse_runs, sparsify, stream_logical};
use image_worker::stream::{stream_range, write_zeroes};
use image_worker::write::store::ByteStore;

fn memory(data: Vec<u8>) -> Memory {
    Memory { data }
}

fn message<T>(r: Result<T, Error>) -> String {
    match r {
        Ok(_) => panic!("no error"),
        Err(e) => e.message(),
    }
}

/// Four blocks of zeros, two of one word, one of others.
fn raw() -> Vec<u8> {
    let mut v = vec![0u8; 4 * 512];
    for _ in 0..2 * 128 {
        v.extend([1u8, 2, 3, 4]);
    }
    v.extend((0..512u32).map(|i| (i * 7 % 251) as u8));
    v
}

fn sparse(data: &[u8]) -> Vec<u8> {
    let mut out = memory(Vec::new());
    sparsify(&memory(data.to_vec()), 512, &mut out).unwrap();
    out.data
}

#[test]
fn numbers_are_read_within_bounds() {
    let data = [0x34u8, 0x12, 0x78, 0x56, 0, 0, 0, 0, 9];
    assert_eq!(u16le(&data, 0).unwrap(), 0x1234);
    assert_eq!(u32le(&data, 0).unwrap(), 0x5678_1234);
    assert_eq!(u64le(&data, 0).unwrap(), 0x5678_1234);
    assert_eq!(bytes(&data, 7, 2).unwrap(), &[0u8, 9]);
    assert_eq!(message(u16le(&data, 8)), "truncated structure: missing u16 at 8");
    assert_eq!(message(u32le(&data, 6)), "truncated structure: missing u32 at 6");
    assert_eq!(message(u64le(&data, 2)), "truncated structure: missing u64 at 2");
    assert_eq!(message(bytes(&data, 8, 2)), "truncated structure: missing 2 bytes at 8");
    assert_eq!(message(bytes(&data, usize::MAX, 2)), "byte range overflow");
}

#[test]
fn sparse_containers_hold_the_image() {
    let image = raw();
    let packed = sparse(&image);
    assert_eq!(packed.len(), 28 + 12 + (12 + 4) + (12 + 512));
    assert_eq!(&packed[0..4], &[0x3a, 0xff, 0x26, 0xed]);
    let opened = Image::open(memory(packed)).unwrap();
    assert!(opened.is_sparse());
    assert_eq!(opened.size(), image.len() as u64);
    assert_eq!(opened.sparse_info(), Some((512, 3)));
    assert_eq!(opened.read_at(0, image.len()).unwrap(), image);
    assert_eq!(opened.read_at(2047, 3).unwrap(), &image[2047..2050]);
    assert_eq!(opened.read_at(3000, 100).unwrap(), &image[3000..3100]);
    let mut out = memory(Vec::new());
    stream_logical(&opened, &mut out).unwrap();
    assert_eq!(out.data, image);
    let end = image.len() as u64;
    assert_eq!(
        message(opened.read_at(end, 1)),
        format!("read range 0x{:x}..0x{:x} exceeds image", end, end + 1)
    );
    assert_eq!(message(opened.read_at(u64::MAX, 1)), "read range overflow");
}

#[test]
fn raw_containers_hold_the_image() {
    let opened = Image::open(memory(raw())).unwrap();
    assert!(!opened.is_sparse());
    assert_eq!(opened.sparse_info(), None);
    assert_eq!(opened.read_at(5, 3000).unwrap(), &raw()[5..3005]);
    assert_eq!(Image::open(memory(Vec::new())).unwrap().size(), 0);
}

#[test]
fn runs_are_found() {
    let (runs, blocks) = scan_sparse_runs(&memory(raw()), 512).unwrap();
    assert_eq!((runs.len(), blocks), (3, 7));
    assert_eq!(message(scan_sparse_runs(&memory(raw()), 0)), "invalid block size");
    assert_eq!(
        message(scan_sparse_runs(&memory(vec![0; 513]), 512)),
        "image size is not block aligned"
    );
}

#[test]
fn sparse_headers_are_checked() {
    let good = sparse(&raw());
    let mut bad = good.clone();
    bad[4] = 2;
    assert_eq!(message(SparseImage::parse(&memory(bad))), "unsupported sparse header");
    let mut bad = good.clone();
    bad[16] += 1;
    assert_eq!(message(SparseImage::parse(&memory(bad))), "chunk blocks do not match header");
    assert!(matches!(SparseImage::parse(&memory(good[..20].to_vec())), Err(Error::Io)));
}

#[test]
fn ranges_are_streamed() {
    let image = Image::open(memory(raw())).unwrap();
    let mut out = memory(vec![7]);
    stream_range(&image, 2040, 20, &mut out).unwrap();
    assert_eq!(out.data[0], 7);
    assert_eq!(&out.data[1..], &raw()[2040..2060]);
    let mut zeros = memory(Vec::new());
    write_zeroes(&mut zeros, 70_000).unwrap();
    assert_eq!(zeros.data, vec![0u8; 70_000]);
}

#[test]
fn stores_are_written_at_random() {
    let mut store = memory(b"abc".to_vec());
    store.put(5, b"xy").unwrap();
    assert_eq!(store.data, b"abc\0\0xy");
    store.put(1, b"Z").unwrap();
    assert_eq!(store.data, b"aZc\0\0xy");
    store.set_len(2).unwrap();
    assert_eq!(store.data, b"aZ");
    store.set_len(4).unwrap();
    assert_eq!(store.data, b"aZ\0\0");
    assert_eq!(store.fetch(1, 2).unwrap(), b"Z\0");
}
