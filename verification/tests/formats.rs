use image_worker::fs::erofs::codec::Algo;
use image_worker::fs::erofs::compress::compact_index;
use image_worker::fs::erofs::encode::{
    count_value_bits, encode_index, encode_pclusters, index_entries, pack_clusters, Pcluster,
};
use image_worker::fs::erofs::inode::Inode;
use image_worker::fs::erofs::xattr::{encode_entry, parse_entry};
use image_worker::fs::erofs::Superblock;
use image_worker::fs::ext4::selinux::read_selinux_context;
use image_worker::image::{Image, Memory};
use image_worker::write::edit::{directory_node, memory_node};
use image_worker::write::ext4_inode::write_selinux_xattr;
use image_worker::write::rebuild::mark_compressed;

fn noise(len: usize, seed: u32) -> Vec<u8> {
    let mut state = seed;
    (0..len)
        .map(|_| {
            state = state.wrapping_mul(1664525).wrapping_add(1013904223);
            (state >> 24) as u8
        })
        .collect()
}

#[test]
fn labels_end_where_the_inode_ends() {
    for context in ["u:object_r:a:s0", "u:object_r:ab:s0", "x"] {
        let area = write_selinux_xattr(context, 256).unwrap();
        assert_eq!(area.len(), 128);
        let room = (context.len() + 1).div_ceil(4) * 4;
        let start = 128 - room;
        assert_eq!(&area[start..start + context.len()], context.as_bytes());
        assert!(area[start + context.len()..].iter().all(|b| *b == 0));
        assert_eq!(u16::from_le_bytes([area[34], area[35]]) as usize, 256 - 160 - room);
        let mut inode = vec![0u8; 128];
        inode.extend_from_slice(&area);
        assert_eq!(read_selinux_context(&inode).as_deref(), Some(context));
        // The label fits exactly behind the entry and its end.
        let least = 160 + 28 + room;
        assert!(write_selinux_xattr(context, least).is_ok());
        assert!(write_selinux_xattr(context, least - 1).is_err());
    }
}

#[test]
fn attributes_read_back_behind_others() {
    let mut out = Vec::new();
    encode_entry(1, b"first", b"some value", &mut out);
    let front = out.clone();
    let n = front.len();
    encode_entry(6, b"selinux", b"u:object_r:a:s0\0", &mut out);
    let (entry, next) = parse_entry(&out, n).unwrap();
    assert_eq!((entry.index, entry.name, entry.value), (6, b"selinux".to_vec(), b"u:object_r:a:s0\0".to_vec()));
    assert_eq!(next, out.len());
    assert_eq!(&out[..n], &front[..]);
    assert_eq!(parse_entry(&out, 0).unwrap().1, n);
}

#[test]
fn indexes_read_back_with_their_blocks() {
    // A file of seven clusters, some of which share a block.
    let mut image = vec![0u8; 8192];
    let mut clusters: Vec<Vec<u8>> = (0..7).map(|i| noise(4096, i)).collect();
    clusters[0] = vec![b'a'; 4096];
    clusters[1] = vec![b'b'; 4096];
    clusters[3] = vec![b'c'; 4096];
    clusters[4] = vec![b'd'; 4096];
    clusters[5] = vec![b'e'; 4096];
    let packed = pack_clusters(Algo::Lz4, 4096, &clusters);
    let (bytes, blocks) = encode_pclusters(&packed, 40);
    assert_eq!(blocks as usize, packed.len());
    image[104..104 + bytes.len()].copy_from_slice(&bytes);

    let sb = Superblock {
        block_size: 4096,
        root_nid: 0,
        meta_blkaddr: 0,
        feature_compat: 0,
        feature_incompat: 0,
        feature_ro_compat: 0,
        volume: [0; 16],
        build_time: 0,
        build_nsec: 0,
        inodes: 1,
        xattr_blkaddr: 0,
    };
    let inode = Inode {
        nid: 1,
        mode: 0o100644,
        uid: 0,
        gid: 0,
        size: 7 * 4096,
        layout: 3,
        raw_blkaddr: 0,
        data_offset: 96,
        inode_size: 32,
        xattr_size: 0,
        advise: 0,
        algorithm_type: 0,
        cluster_bits: 0,
    };
    let index = compact_index(&sb, &Image::open(Memory { data: image }).unwrap(), &inode).unwrap();
    let written = index_entries(&packed);
    assert_eq!(index.entries.len(), 7);
    let mut block = 40;
    for (i, e) in index.entries.iter().enumerate() {
        assert_eq!((e.lcn as usize, e.kind, e.value), (i, written[i].0, written[i].1 as u32));
        if e.kind != 2 {
            assert_eq!(e.pblk, block, "{i}");
            block += 1;
        }
    }
    assert_eq!(block, 40 + packed.len() as u64);
}

#[test]
fn large_blocks_shift_their_kinds() {
    let pcl = vec![
        Pcluster { head: true, n_clusters: 2, payload: vec![1u8; 100] },
        Pcluster { head: false, n_clusters: 1, payload: vec![2u8; 4096] },
    ];
    for (block_size, low) in [(512, 12), (4096, 12), (8192, 13), (16384, 14)] {
        assert_eq!(count_value_bits(block_size), low);
        let (encoded, blocks) = encode_index(&pcl, 100, low);
        assert_eq!(blocks, 2);
        assert_eq!(encoded[0..2], (1u16 << low).to_le_bytes());
        assert_eq!(encoded[2..4], ((2u16 << low) | 1).to_le_bytes());
        assert_eq!(encoded[8..10], [0, 0]);
    }
    assert_eq!(encode_index(&pcl, 100, 12), encode_pclusters(&pcl, 100));
}

#[test]
fn regular_files_are_marked() {
    let mut root = directory_node(
        String::new(),
        0o40755,
        vec![
            memory_node("a".to_owned(), 0o100644, vec![1; 4097]),
            memory_node("empty".to_owned(), 0o100644, Vec::new()),
            memory_node("link".to_owned(), 0o120777, b"target".to_vec()),
        ],
    );
    mark_compressed(&mut root, 4096, true);
    let marks: Vec<u64> = root.children.iter().map(|n| n.erofs_compact_clusters).collect();
    assert_eq!(marks, [2, 0, 0]);
    assert_eq!(root.erofs_compact_clusters, 0);
    mark_compressed(&mut root, 4096, false);
    assert!(root.children.iter().all(|n| n.erofs_compact_clusters == 0));
}
