use image_worker::error::Error;
use image_worker::fs::erofs::codec::Algo;
use image_worker::fs::erofs::inode::{read, read_data, read_data_streaming, read_range};
use image_worker::image::{Image, Memory};
use image_worker::read::cli::{Cli, MetadataOptions, Operation};
use image_worker::read::run::run_cli;
use image_worker::sparse::sparsify;
use image_worker::write::blocks::{slice_serve, BlockSource, Volume};
use image_worker::write::convert::{erofs_to_ext4, ext4_to_erofs};
use image_worker::write::edit::{directory_node, memory_node};
use image_worker::write::ext4_plan::rebuild_generic;
use image_worker::write::ext4_source::Ext4Source;
use image_worker::write::node::Node;
use image_worker::write::packed::convert_compressed;
use image_worker::write::rebuild::convert_plain;
use image_worker::write::source::Source;

/// Serves the content that nodes hold themselves.
struct Loaded;

impl BlockSource for Loaded {
    fn volume(&self) -> Volume {
        unreachable!()
    }

    fn unreliable(&self) -> bool {
        unreachable!()
    }

    fn wf(&self) -> bool {
        unreachable!()
    }

    fn read_node_block(&mut self, node: &Node, offset: u64, len: usize) -> Result<Vec<u8>, Error> {
        Ok(slice_serve(node.data(), offset, len))
    }
}

fn memory(data: Vec<u8>) -> Memory {
    Memory { data }
}

fn open(data: &[u8]) -> Image<Memory> {
    Image::open(memory(data.to_vec())).expect("container")
}

fn noise(len: usize, seed: u32) -> Vec<u8> {
    let mut state = seed;
    (0..len)
        .map(|_| {
            state = state.wrapping_mul(1664525).wrapping_add(1013904223);
            (state >> 24) as u8
        })
        .collect()
}

fn labelled(mut node: Node, context: &str) -> Node {
    node.context = Some(context.to_owned());
    node
}

fn sample_files() -> Vec<(&'static str, Vec<u8>)> {
    vec![
        ("/etc/empty", Vec::new()),
        ("/etc/fstab", b"/system /system ext4 ro\n".to_vec()),
        ("/bin/noise", noise(20_000, 7)),
        ("/bin/zeros", vec![0u8; 30_000]),
        ("/bin/mixed", {
            let mut v = vec![b'a'; 9_000];
            v.extend(noise(5_000, 9));
            v.extend(vec![0u8; 9_000]);
            v
        }),
        ("/init", b"#!/bin/sh\n".to_vec()),
    ]
}

fn sample_tree() -> Node {
    let file = |name: &str, data: Vec<u8>| memory_node(name.to_owned(), 0o100644, data);
    let files = sample_files();
    let get = |path: &str| files.iter().find(|f| f.0 == path).unwrap().1.clone();
    let link = memory_node("link".to_owned(), 0o120777, b"/etc/fstab".to_vec());
    let etc = directory_node(
        "etc".to_owned(),
        0o40755,
        vec![file("fstab", get("/etc/fstab")), link, file("empty", get("/etc/empty"))],
    );
    let bin = directory_node(
        "bin".to_owned(),
        0o40750,
        vec![
            file("zeros", get("/bin/zeros")),
            labelled(file("noise", get("/bin/noise")), "u:object_r:system_file:s0"),
            file("mixed", get("/bin/mixed")),
        ],
    );
    let mut root = directory_node(
        String::new(),
        0o40755,
        vec![labelled(etc, "u:object_r:etc:s0"), bin, file("init", get("/init"))],
    );
    root.children[2].uid = 1000;
    root.children[2].gid = 2000;
    root
}

fn options() -> MetadataOptions {
    MetadataOptions::default()
}

fn cli(path: &str, operation: Operation, metadata: MetadataOptions) -> Cli {
    Cli {
        image: "image".to_owned(),
        path: path.to_owned(),
        info: false,
        operation: Some(operation),
        metadata,
    }
}

fn show(image: &[u8], path: &str, operation: Operation, metadata: MetadataOptions) -> Vec<u8> {
    let mut out = memory(Vec::new());
    run_cli(&cli(path, operation, metadata), &open(image), &mut out).expect("shown");
    out.data
}

fn check_files(image: &[u8]) {
    for (path, data) in sample_files() {
        assert_eq!(show(image, path, Operation::Cat, options()), data, "{path}");
    }
    assert_eq!(show(image, "/etc/link", Operation::Cat, options()), b"/etc/fstab");
    let mut shown = options();
    shown.permissions = true;
    shown.owner = true;
    shown.context = true;
    shown.size = true;
    let list = String::from_utf8(show(image, "/", Operation::List, shown)).unwrap();
    assert!(list.contains("owner=1000:2000 permissions=-rw-r--r-- size=10 context=- init\n"), "{list}");
    assert!(list.contains("permissions=drwxr-xr-x"), "{list}");
    assert!(list.contains("context=u:object_r:etc:s0 etc\n"), "{list}");
    let bin = String::from_utf8(show(image, "/bin", Operation::List, shown)).unwrap();
    assert!(bin.contains("context=u:object_r:system_file:s0 noise\n"), "{bin}");
    let found = String::from_utf8(show(
        image,
        "/",
        Operation::Find(Some("*s*".to_owned())),
        options(),
    ))
    .unwrap();
    assert!(found.contains("/etc/fstab\n"), "{found}");
    assert!(found.contains("/bin/noise\n"), "{found}");
    assert!(!found.contains("/init\n"), "{found}");
}

fn plain_erofs(tree: &mut Node) -> Vec<u8> {
    let mut store = memory(Vec::new());
    convert_plain(&mut Loaded, tree, 4096, 77, &mut store).expect("plain");
    store.data
}

fn packed_erofs(tree: &mut Node, algo: Algo) -> Vec<u8> {
    let mut store = memory(Vec::new());
    convert_compressed(&mut Loaded, tree, 4096, algo, 77, &mut store).expect("packed");
    store.data
}

fn profile(block_size: u64) -> image_worker::fs::ext4::Superblock {
    image_worker::fs::ext4::Superblock {
        block_size,
        inode_size: 256,
        blocks_per_group: 8192,
        inodes_per_group: 256,
        group_descriptor_size: 32,
        block_count: 0,
        compat: 0,
        incompat: 0x42,
        ro_compat: 0,
    }
}

fn fresh_ext4(tree: &mut Node, block_size: u64, shared: bool) -> Vec<u8> {
    let mut store = memory(Vec::new());
    rebuild_generic(&mut Loaded, &profile(block_size), tree, shared, 0, false, false, &mut store)
        .expect("ext4");
    store.data
}

#[test]
fn plain_erofs_reads_back() {
    let image = plain_erofs(&mut sample_tree());
    assert_eq!(image.len() % 4096, 0);
    check_files(&image);
}

#[test]
fn lz4_erofs_reads_back() {
    let image = packed_erofs(&mut sample_tree(), Algo::Lz4);
    assert!(image.len() < plain_erofs(&mut sample_tree()).len());
    check_files(&image);
}

#[test]
fn deflate_erofs_reads_back() {
    let image = packed_erofs(&mut sample_tree(), Algo::Deflate);
    check_files(&image);
}

#[test]
fn ext4_reads_back() {
    check_files(&fresh_ext4(&mut sample_tree(), 4096, false));
    check_files(&fresh_ext4(&mut sample_tree(), 2048, false));
}

#[test]
fn shared_ext4_reads_back() {
    check_files(&fresh_ext4(&mut sample_tree(), 4096, true));
}

#[test]
fn sparse_container_reads_back() {
    let image = plain_erofs(&mut sample_tree());
    let mut out = memory(Vec::new());
    sparsify(&memory(image.clone()), 4096, &mut out).expect("sparse");
    assert!(out.data.len() < image.len());
    check_files(&out.data);
}

#[test]
fn erofs_and_ext4_convert_into_each_other() {
    let erofs = packed_erofs(&mut sample_tree(), Algo::Lz4);
    for shared in [false, true] {
        let source = Source::open(open(&erofs)).expect("source");
        let mut store = memory(Vec::new());
        erofs_to_ext4(&source, shared, 1, &mut store).expect("to ext4");
        check_files(&store.data);
        for algo in [Algo::Off, Algo::Lz4, Algo::Deflate] {
            let mut source = Ext4Source::open(open(&store.data)).expect("ext4 source");
            let mut back = memory(Vec::new());
            let dropped = ext4_to_erofs(&mut source, algo, 5, &mut back).expect("to erofs");
            assert_eq!(dropped, 0);
            check_files(&back.data);
        }
    }
}

#[test]
fn streams_ranges_and_whole_reads_agree() {
    for algo in [Algo::Off, Algo::Lz4, Algo::Deflate] {
        let image = match algo {
            Algo::Off => plain_erofs(&mut sample_tree()),
            _ => packed_erofs(&mut sample_tree(), algo),
        };
        let source = Source::open(open(&image)).expect("source");
        let root = source.tree(source.sb.root_nid, String::new()).expect("tree");
        let mut all = vec![&root];
        let mut files = 0;
        while let Some(node) = all.pop() {
            all.extend(node.children.iter());
            if node.is_dir() {
                continue;
            }
            let inode = read(&source.sb, &source.reader, node.nid).expect("inode");
            let whole = read_data(&source.sb, &source.reader, &inode).expect("whole");
            let mut out = memory(Vec::new());
            read_data_streaming(&source.sb, &source.reader, &inode, &mut out).expect("stream");
            assert_eq!(out.data, whole);
            let part = read_range(&source.sb, &source.reader, &inode, 1, 5_000);
            if whole.len() > 1 {
                let end = whole.len().min(5_001);
                assert_eq!(part.expect("part"), whole[1..end].to_vec());
            }
            files += 1;
        }
        assert!(files > 3);
    }
}
