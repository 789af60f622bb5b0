use image_worker::fs::erofs::codec::{compress_pcluster, decompress, Algo};
use image_worker::fs::erofs::encode::{encode_pclusters, pack_clusters, Pcluster};

fn pattern(len: usize) -> Vec<u8> {
    (0..len).map(|i| (i % 251) as u8).collect()
}

#[test]
fn deflate_small_sizes_roundtrip() {
    // Tiny single-cluster files have to survive a padded block.
    let words = b"on boot\n    write /sys/test value\n# comment\n";
    for len in [50usize, 200, 1000, 3000, 4000, 4095, 4096, 5000, 8192] {
        let mut input = Vec::with_capacity(len);
        while input.len() < len {
            let take = (len - input.len()).min(words.len());
            input.extend_from_slice(&words[..take]);
        }
        let Some(compressed) = compress_pcluster(Algo::Deflate, &input) else {
            continue;
        };
        let mut block = vec![0u8; 4096];
        assert!(compressed.len() <= 4096, "len={len} clen={}", compressed.len());
        block[..compressed.len()].copy_from_slice(&compressed);
        let decoded = decompress(&block, input.len(), 2, false).expect("deflate decode must succeed");
        assert_eq!(decoded, input, "mismatch len={len}");
    }
}

#[test]
fn lz4_pcluster_roundtrip() {
    let input = pattern(8192);
    let compressed = compress_pcluster(Algo::Lz4, &input).expect("must compress");
    assert!(compressed.len() < input.len());
    let mut block = vec![0u8; 4096];
    block[..compressed.len()].copy_from_slice(&compressed);
    let decoded = decompress(&block, input.len(), 0, false).expect("lz4 decode");
    assert_eq!(decoded, input);
}

#[test]
fn deflate_pcluster_roundtrip() {
    let input = pattern(8192);
    let compressed = compress_pcluster(Algo::Deflate, &input).expect("must compress");
    assert!(compressed.len() < input.len());
    let mut block = vec![0u8; 4096];
    block[..compressed.len()].copy_from_slice(&compressed);
    let decoded = decompress(&block, input.len(), 2, false).expect("deflate decode");
    assert_eq!(decoded, input);
}

#[test]
fn incompressible_falls_back_to_plain() {
    // Pseudo-random bytes: neither algorithm may claim them.
    let mut input = vec![0u8; 4096];
    let mut state = 0x12345678u32;
    for byte in input.iter_mut() {
        state = state.wrapping_mul(1664525).wrapping_add(1013904223);
        *byte = (state >> 24) as u8;
    }
    assert!(compress_pcluster(Algo::Lz4, &input).is_none());
    assert!(compress_pcluster(Algo::Deflate, &input).is_none());
    assert!(compress_pcluster(Algo::Off, &input).is_none());
}

#[test]
fn pack_pairs_keep_order_and_fit_single_block() {
    let clusters = vec![pattern(4096), pattern(4096), vec![7u8; 100]];
    let pcl = pack_clusters(Algo::Lz4, 4096, &clusters);
    // First pair compresses jointly (HEAD of 2), tail stays separate.
    assert!(!pcl.is_empty());
    assert!(pcl.len() <= clusters.len());
    for p in &pcl {
        assert!(p.payload.len() <= 4096);
    }
}

#[test]
fn index_anchors_match_consecutive_blocks() {
    // HEAD(2 clusters) + PLAIN: blocks P, P+1; packs [H,N] and [P,pad].
    let pcl = vec![
        Pcluster { head: true, n_clusters: 2, payload: vec![1u8; 100] },
        Pcluster { head: false, n_clusters: 1, payload: vec![2u8; 4096] },
    ];
    let (encoded, blocks) = encode_pclusters(&pcl, 100);
    assert_eq!(blocks, 2);
    assert_eq!(encoded.len(), 16);
    // Pack 0: HEAD + NONHEAD(1), anchor = 100 - 1.
    assert_eq!(&encoded[0..2], &((1u16 << 12) | 0).to_le_bytes());
    assert_eq!(&encoded[2..4], &((2u16 << 12) | 1).to_le_bytes());
    assert_eq!(&encoded[4..8], &99u32.to_le_bytes());
    // Pack 1: PLAIN + pad, anchor = 101 - 1.
    assert_eq!(&encoded[8..10], &0u16.to_le_bytes());
    assert_eq!(&encoded[10..12], &0u16.to_le_bytes());
    assert_eq!(&encoded[12..16], &100u32.to_le_bytes());
}
