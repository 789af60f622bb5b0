use image_worker::error::Error;
use image_worker::fs::erofs::codec::Algo;
use image_worker::fs::{probe_fs, FsKind};
use image_worker::image::{Image, Memory};
use image_worker::read::cli::{Cli, MetadataOptions, Operation};
use image_worker::read::run::run_cli;
use image_worker::write::args::FsTarget;
use image_worker::write::blocks::{slice_serve, BlockSource, ErofsBlockSource, Volume};
use image_worker::write::edit::{apply_action, directory_node, memory_node, Action, Metadata};
use image_worker::write::ext4_layout::directory;
use image_worker::write::ext4_plan::{plan_total_blocks, rebuild_generic};
use image_worker::write::ext4_source::Ext4Source;
use image_worker::write::node::{nodes, Node};
use image_worker::write::packed::{convert_compressed, rebuild_compressed};
use image_worker::write::patch::write_image;
use image_worker::write::rebuild::convert_plain;
use image_worker::write::route::{
    convert, finish_edit, finish_ext4, has_removal, plan_edit, Delivery,
};
use image_worker::write::source::Source;

/// Serves the content that nodes hold themselves.
struct Loaded;

impl BlockSource for Loaded {
    fn volume(&self) -> Volume {
        unreachable!()
    }

    fn unreliable(&self) -> bool {
        unreachable!()
    }

    fn wf(&self) -> bool {
        unreachable!()
    }

    fn read_node_block(&mut self, node: &Node, offset: u64, len: usize) -> Result<Vec<u8>, Error> {
        Ok(slice_serve(node.data(), offset, len))
    }
}

fn memory(data: Vec<u8>) -> Memory {
    Memory { data }
}

fn message<T>(r: Result<T, Error>) -> String {
    match r {
        Ok(_) => panic!("no error"),
        Err(e) => e.message(),
    }
}

fn open(data: &[u8]) -> Image<Memory> {
    Image::open(memory(data.to_vec())).expect("container")
}

fn file(name: &str, data: &[u8]) -> Node {
    memory_node(name.to_owned(), 0o100644, data.to_vec())
}

fn text(n: usize) -> Vec<u8> {
    (0..n).map(|i| b"the quick brown fox "[i % 20]).collect()
}

fn tree() -> Node {
    let mut a = file("a", &text(20_000));
    a.context = Some("u:object_r:a:s0".to_owned());
    let etc = directory_node(
        "etc".to_owned(),
        0o40755,
        vec![a, file("b", b"beta"), file("twin", &text(20_000))],
    );
    directory_node(
        String::new(),
        0o40755,
        vec![etc, memory_node("link".to_owned(), 0o120777, b"etc/b".to_vec()), file("c", b"")],
    )
}

fn erofs(algo: Algo) -> Vec<u8> {
    let mut store = memory(Vec::new());
    if algo == Algo::Off {
        convert_plain(&mut Loaded, &mut tree(), 4096, 1, &mut store).unwrap();
    } else {
        convert_compressed(&mut Loaded, &mut tree(), 4096, algo, 1, &mut store).unwrap();
    }
    store.data
}

fn ext4(shared: bool, keep_mb: u64) -> Vec<u8> {
    ext4_of(&mut tree(), shared, keep_mb)
}

fn ext4_of(root: &mut Node, shared: bool, keep_mb: u64) -> Vec<u8> {
    let profile = image_worker::fs::ext4::Superblock {
        block_size: 4096,
        inode_size: 256,
        blocks_per_group: 1024,
        inodes_per_group: 64,
        group_descriptor_size: 32,
        block_count: 0,
        compat: 0,
        incompat: 0x42,
        ro_compat: 0,
    };
    let mut store = memory(Vec::new());
    rebuild_generic(&mut Loaded, &profile, root, shared, keep_mb, false, false, &mut store).unwrap();
    store.data
}

fn run(image: &[u8], path: &str, info: bool, operation: Option<Operation>, metadata: MetadataOptions) -> Result<String, Error> {
    let mut out = memory(Vec::new());
    let cli = Cli { image: String::new(), path: path.to_owned(), info, operation, metadata };
    run_cli(&cli, &open(image), &mut out)?;
    Ok(String::from_utf8_lossy(&out.data).into_owned())
}

fn cat(image: &[u8], path: &str) -> Result<String, Error> {
    run(image, path, false, Some(Operation::Cat), MetadataOptions::default())
}

fn list(image: &[u8], path: &str) -> String {
    run(image, path, false, Some(Operation::List), MetadataOptions::default()).unwrap()
}

fn check_rest(image: &[u8]) {
    assert_eq!(cat(image, "/etc/a").unwrap().into_bytes(), text(20_000));
    assert_eq!(cat(image, "/link").unwrap(), "etc/b");
    assert_eq!(cat(image, "/c").unwrap(), "");
    let context = MetadataOptions { context: true, ..MetadataOptions::default() };
    let shown = run(image, "/etc", false, Some(Operation::List), context).unwrap();
    assert!(shown.contains("context=u:object_r:a:s0 a\n"), "{shown}");
}

/// Applies actions to an EROFS image.
fn edited(image: &[u8], actions: Vec<(Action, Option<Node>)>, sparse: bool) -> Result<(Vec<u8>, bool), Error> {
    let source = Source::open(open(image))?;
    let mut root = source.tree(source.sb.root_nid, String::new())?;
    let (actions, added): (Vec<Action>, Vec<Option<Node>>) = actions.into_iter().unzip();
    let plan = plan_edit(&root, &actions, Algo::Off, false);
    for (action, node) in actions.into_iter().zip(added) {
        apply_action(&mut root, action, node)?;
    }
    let mut store = memory(Vec::new());
    let mut out = memory(Vec::new());
    match finish_edit(&source, &plan, &mut root, sparse, 9, &mut store, &mut out)? {
        Delivery::Sent => Ok((out.data, true)),
        Delivery::Stored(block_size) => {
            write_image(&store, block_size as usize, sparse, &mut out)?;
            Ok((out.data, false))
        }
    }
}

fn addition(destination: &str, data: &[u8]) -> (Action, Option<Node>) {
    let action = Action::Add {
        source: "host".to_owned(),
        destination: destination.to_owned(),
        metadata: Metadata::default(),
    };
    (action, Some(file("host", data)))
}

fn removal(path: &str) -> (Action, Option<Node>) {
    (Action::Remove { path: path.to_owned(), recursive: false }, None)
}

#[test]
fn metadata_is_patched_in_place() {
    for algo in [Algo::Off, Algo::Lz4] {
        let image = erofs(algo);
        let actions = vec![
            (Action::SetMode { path: "/etc/b".to_owned(), mode: 0o600 }, None),
            (Action::SetOwner { path: "/etc/b".to_owned(), uid: 12, gid: 34 }, None),
        ];
        let (after, sent) = edited(&image, actions, false).unwrap();
        assert!(sent);
        assert_eq!(after.len(), image.len());
        let changed = (0..image.len()).filter(|i| image[*i] != after[*i]).count();
        assert!(0 < changed && changed <= 8, "{changed}");
        let shown = MetadataOptions { owner: true, numeric_permissions: true, ..MetadataOptions::default() };
        let shown = run(&after, "/etc", false, Some(Operation::List), shown).unwrap();
        assert!(shown.contains("owner=12:34 mode=0600 b\n"), "{shown}");
        check_rest(&after);
        assert_eq!(cat(&after, "/etc/b").unwrap(), "beta");
    }
}

#[test]
fn one_file_is_replaced_at_the_end() {
    for algo in [Algo::Off, Algo::Lz4] {
        let image = erofs(algo);
        let (after, sent) = edited(&image, vec![addition("/etc/b", b"replaced")], false).unwrap();
        assert!(sent);
        assert_eq!(after.len(), image.len() + 4096);
        assert_eq!(cat(&after, "/etc/b").unwrap(), "replaced");
        check_rest(&after);
    }
}

#[test]
fn one_file_is_added_at_the_end() {
    for algo in [Algo::Off, Algo::Lz4] {
        let mut image = erofs(algo);
        let source = Source::open(open(&image)).unwrap();
        let root = source.tree(source.sb.root_nid, String::new()).unwrap();
        let etc = root.children.iter().find(|c| c.name == "etc").unwrap();
        let inode = (source.sb.meta_blkaddr * 4096 + etc.nid * 32) as usize;
        // The directory has a whole block, so that it is written in its place.
        image[inode + 8..inode + 12].copy_from_slice(&4096u32.to_le_bytes());
        let (after, sent) = edited(&image, vec![addition("/etc/new", b"fresh")], false).unwrap();
        assert!(sent);
        // The inode and the content of the new file stand behind the end.
        assert_eq!(after.len(), image.len() + 2 * 4096);
        assert_eq!(after[image.len() + 4..image.len() + 6], 0o100644u16.to_le_bytes());
        assert_eq!(&after[image.len() + 4096..image.len() + 4101], b"fresh");
        assert_eq!(after[1040], image[1040] + 1);
        let place = etc.raw_block as usize * 4096;
        let changed = (0..image.len()).filter(|i| image[*i] != after[*i]);
        for i in changed {
            assert!((place..place + 4096).contains(&i) || (1028..1064).contains(&i), "{i}");
        }
        assert_eq!(list(&after, "/etc"), "a\nb\nnew\ntwin\n");
        assert_eq!(cat(&after, "/etc/new").unwrap(), "fresh");
        assert_eq!(cat(&after, "/etc/b").unwrap(), "beta");
        check_rest(&after);
    }
}

#[test]
fn explicit_contexts_are_rebuilt() {
    let image = erofs(Algo::Off);
    let set = Action::SetContext { path: "/etc/b".to_owned(), context: "u:object_r:b:s0".to_owned() };
    let (after, sent) = edited(&image, vec![(set, None)], false).unwrap();
    assert!(!sent);
    let context = MetadataOptions { context: true, ..MetadataOptions::default() };
    let shown = run(&after, "/etc", false, Some(Operation::List), context).unwrap();
    assert!(shown.contains("context=u:object_r:b:s0 b\n"), "{shown}");
    check_rest(&after);
}

#[test]
fn removals_are_rebuilt() {
    for algo in [Algo::Off, Algo::Lz4] {
        let image = erofs(algo);
        let (after, sent) = edited(&image, vec![removal("/etc/twin")], false).unwrap();
        assert!(!sent);
        assert!(after.len() < image.len());
        assert_eq!(list(&after, "/etc"), "a\nb\n");
        check_rest(&after);
    }
}

#[test]
fn compressed_rebuilds_need_whole_files() {
    let image = erofs(Algo::Lz4);
    let source = Source::open(open(&image)).unwrap();
    let mut store = memory(Vec::new());
    let mut root = source.tree(source.sb.root_nid, String::new()).unwrap();
    rebuild_compressed(&source, &mut root, Algo::Deflate, 3, &mut store).unwrap();
    check_rest(&store.data);

    let grow = |root: &mut Node| {
        let etc = root.children.iter_mut().find(|n| n.name == "etc").unwrap();
        let a = etc.children.iter_mut().find(|n| n.name == "a").unwrap();
        a.data_size += 4096;
    };
    let mut root = source.tree(source.sb.root_nid, String::new()).unwrap();
    grow(&mut root);
    assert_eq!(
        message(rebuild_compressed(&source, &mut root, Algo::Lz4, 3, &mut store)),
        "short EROFS source file read"
    );
    let mut root = tree();
    grow(&mut root);
    assert_eq!(
        message(rebuild_compressed(&source, &mut root, Algo::Lz4, 3, &mut store)),
        "file node data is too short"
    );
}

#[test]
fn edits_go_into_sparse_containers() {
    let image = erofs(Algo::Off);
    let (after, _) = edited(&image, vec![removal("/etc/twin")], true).unwrap();
    assert!(open(&after).is_sparse());
    check_rest(&after);
    let (after, _) = edited(&image, vec![addition("/etc/b", b"new")], true).unwrap();
    assert!(open(&after).is_sparse());
    assert_eq!(cat(&after, "/etc/b").unwrap(), "new");
    check_rest(&after);
}

#[test]
fn several_replacements_leave_other_blocks_alone() {
    let image = erofs(Algo::Lz4);
    let actions = vec![addition("/etc/b", b"one"), addition("/c", b"two")];
    let (after, sent) = edited(&image, actions, false).unwrap();
    assert!(sent);
    assert_eq!(cat(&after, "/etc/b").unwrap(), "one");
    assert_eq!(cat(&after, "/c").unwrap(), "two");
    assert_eq!(cat(&after, "/etc/a").unwrap().into_bytes(), text(20_000));
    assert_eq!(cat(&after, "/etc/twin").unwrap().into_bytes(), text(20_000));
    let changed = (0..image.len()).filter(|i| image[*i] != after[*i]).count();
    assert!(changed <= 2 * 32 + 36, "{changed}");
}

#[test]
fn new_files_are_laid_over() {
    for algo in [Algo::Off, Algo::Lz4] {
        let image = erofs(algo);
        let source = Source::open(open(&image)).unwrap();
        let root = source.tree(source.sb.root_nid, String::new()).unwrap();
        let etc = root.children.iter().find(|c| c.name == "etc").unwrap();
        let actions = vec![addition("/etc/new", b"fresh"), addition("/more", &text(5_000))];
        let (after, sent) = edited(&image, actions, false).unwrap();
        assert!(sent);
        assert_eq!(list(&after, "/etc"), "a\nb\nnew\ntwin\n");
        assert_eq!(list(&after, "/"), "c\netc/\nlink\nmore\n");
        assert_eq!(cat(&after, "/etc/new").unwrap(), "fresh");
        assert_eq!(cat(&after, "/more").unwrap().into_bytes(), text(5_000));
        assert_eq!(cat(&after, "/etc/twin").unwrap().into_bytes(), text(20_000));
        check_rest(&after);
        // Of the image only the inodes of the two directories change.
        let changed = (0..image.len()).filter(|i| image[*i] != after[*i]);
        for i in changed {
            let inode = [root.nid, etc.nid].iter().any(|n| {
                let at = 4096 + *n as usize * 32;
                (at..at + 32).contains(&i)
            });
            assert!(inode || (1028..1064).contains(&i), "{i}");
        }
        // Each new inode has a block of its own, behind its content.
        for at in [image.len() + 4096, image.len() + 4 * 4096] {
            assert_eq!(after[at + 4..at + 6], 0o100644u16.to_le_bytes());
        }
        let read = Source::open(open(&after)).unwrap();
        let root = read.tree(read.sb.root_nid, String::new()).unwrap();
        let more = root.children.iter().find(|c| c.name == "more").unwrap();
        assert_eq!(more.nid as usize, (image.len() + 4 * 4096 - 4096) / 32);

        // A second edit finds the new files, and room behind them.
        let (twice, _) = edited(&after, vec![addition("/last", b"end"), addition("/etc/z", b"")], false).unwrap();
        assert_eq!(list(&twice, "/"), "c\netc/\nlast\nlink\nmore\n");
        assert_eq!(cat(&twice, "/last").unwrap(), "end");
        assert_eq!(cat(&twice, "/etc/new").unwrap(), "fresh");
        check_rest(&twice);
    }
}

#[test]
fn removals_shrink_ext4() {
    let image = ext4(false, 16);
    let mut source = Ext4Source::open(open(&image)).unwrap();
    let mut root = source.tree(2, String::new()).unwrap();
    let (action, node) = removal("/etc/twin");
    apply_action(&mut root, action, node).unwrap();
    let mut store = memory(Vec::new());
    finish_ext4(&mut source, &mut root, true, None, 0, false, &mut store).unwrap();
    assert_eq!(store.data.len(), 1024 * 4096);
    assert!(store.data.len() < image.len());
    check_rest(&store.data);
}

#[test]
fn ext4_edits_keep_the_rest() {
    let image = ext4(false, 0);
    let mut source = Ext4Source::open(open(&image)).unwrap();
    let mut root = source.tree(2, String::new()).unwrap();
    let actions = vec![addition("/etc/new", b"fresh"), removal("/etc/twin")];
    let removal = has_removal(&vec![Action::Remove { path: String::new(), recursive: true }]);
    assert!(removal);
    for (action, node) in actions {
        apply_action(&mut root, action, node).unwrap();
    }
    let mut store = memory(Vec::new());
    finish_ext4(&mut source, &mut root, removal, None, 0, false, &mut store).unwrap();
    assert_eq!(cat(&store.data, "/etc/new").unwrap(), "fresh");
    assert_eq!(list(&store.data, "/etc"), "a\nb\nnew\n");
    check_rest(&store.data);
}

#[test]
fn a_reserve_leaves_room() {
    let plain = ext4(false, 0);
    let roomy = ext4(false, 16);
    assert!(roomy.len() >= plain.len() + 8 * 1024 * 1024);
    check_rest(&roomy);
}

#[test]
fn ext4_counts_add_up() {
    for shared in [false, true] {
        let image = ext4(shared, 16);
        let word = |at: usize| u32::from_le_bytes(image[at..at + 4].try_into().unwrap());
        let half = |at: usize| u16::from_le_bytes(image[at..at + 2].try_into().unwrap()) as u32;
        let total = word(1028) as usize;
        assert_eq!(image.len(), total * 4096);
        let groups = total.div_ceil(1024);
        assert!(groups > 1);
        let (mut blocks, mut inodes, mut dirs, mut clear) = (0, 0, 0, 0);
        for g in 0..groups {
            let at = 4096 + 32 * g;
            blocks += half(at + 12);
            inodes += half(at + 14);
            dirs += half(at + 16);
            let bitmap = word(at) as usize * 4096;
            let span = 1024.min(total - 1024 * g);
            clear += (0..span).filter(|b| image[bitmap + b / 8] >> (b % 8) & 1 == 0).count() as u32;
        }
        assert_eq!(blocks, word(1036));
        assert_eq!(clear, word(1036));
        assert_eq!(inodes, word(1040));
        assert_eq!(dirs, 2);
    }
}

/// The number of used blocks of an ext4 image.
fn used(image: &[u8]) -> u32 {
    let free = u32::from_le_bytes([image[1036], image[1037], image[1038], image[1039]]);
    let all = u32::from_le_bytes([image[1028], image[1029], image[1030], image[1031]]);
    all - free
}

#[test]
fn blank_blocks_become_holes() {
    let build = |data: &[u8], shared: bool| {
        let mut root = directory_node(String::new(), 0o40755, vec![file("z", data)]);
        ext4_of(&mut root, shared, 0)
    };
    let blank = vec![0u8; 5 * 4096];
    let holes = build(&blank, true);
    assert_eq!(used(&holes), used(&build(b"", true)));
    assert_eq!(used(&build(&blank, false)), used(&holes) + 5);
    assert_eq!(cat(&holes, "/z").unwrap().into_bytes(), blank);
}

#[test]
fn shared_blocks_are_stored_once() {
    let plain = ext4(false, 0);
    let shared = ext4(true, 0);
    assert_eq!(used(&plain), used(&shared) + 5);
    check_rest(&shared);
    assert_eq!(cat(&shared, "/etc/twin").unwrap().into_bytes(), text(20_000));
}

fn converted(image: &[u8], target: FsTarget, sparse: bool, algo: Algo) -> Vec<u8> {
    let image = open(image);
    let kind = probe_fs(&image).unwrap();
    let mut store = memory(Vec::new());
    let mut out = memory(Vec::new());
    let (delivery, skipped) =
        convert(image, kind, target, sparse, false, 0, algo, 3, &mut store, &mut out).unwrap();
    assert_eq!(skipped, 0);
    match delivery {
        Delivery::Sent => out.data,
        Delivery::Stored(block_size) => {
            write_image(&store, block_size as usize, sparse, &mut out).unwrap();
            out.data
        }
    }
}

#[test]
fn images_convert_there_and_back() {
    let first = ext4(false, 0);
    for algo in [Algo::Off, Algo::Lz4, Algo::Deflate] {
        let there = converted(&first, FsTarget::Erofs, false, algo);
        assert_eq!(probe_fs(&open(&there)).unwrap(), FsKind::Erofs);
        check_rest(&there);
        let back = converted(&there, FsTarget::Ext4, false, Algo::Off);
        assert_eq!(probe_fs(&open(&back)).unwrap(), FsKind::Ext4);
        check_rest(&back);
        assert_eq!(cat(&back, "/etc/twin").unwrap().into_bytes(), text(20_000));
    }
}

#[test]
fn containers_convert_without_touching_the_filesystem() {
    let first = erofs(Algo::Lz4);
    let sparse = converted(&first, FsTarget::Erofs, true, Algo::Off);
    assert!(open(&sparse).is_sparse());
    assert_eq!(converted(&sparse, FsTarget::Erofs, false, Algo::Off), first);
}

#[test]
fn special_files_are_left_out() {
    let mut root = tree();
    root.children.push(memory_node("null".to_owned(), 0o20666, Vec::new()));
    let profile = Ext4Source::open(open(&ext4(false, 0))).unwrap().profile;
    let mut store = memory(Vec::new());
    rebuild_generic(&mut Loaded, &profile, &mut root, false, 0, false, false, &mut store).unwrap();
    let mut target = memory(Vec::new());
    let mut out = memory(Vec::new());
    let (_, skipped) = convert(
        open(&store.data),
        FsKind::Ext4,
        FsTarget::Erofs,
        false,
        false,
        0,
        Algo::Lz4,
        3,
        &mut target,
        &mut out,
    )
    .unwrap();
    assert_eq!(skipped, 1);
    assert_eq!(list(&target.data, "/"), "c\netc/\nlink\n");
}

#[test]
fn lost_and_found_is_dropped() {
    let mut root = tree();
    let pipe = memory_node("pipe".to_owned(), 0o10644, Vec::new());
    root.children.push(directory_node("lost+found".to_owned(), 0o40700, vec![pipe]));
    let etc = root.children.iter_mut().find(|c| c.name == "etc").unwrap();
    etc.children.push(directory_node("lost+found".to_owned(), 0o40700, Vec::new()));
    let image = ext4_of(&mut root, false, 0);
    assert_eq!(list(&image, "/"), "etc/\nlink\nc\nlost+found/\n");
    for algo in [Algo::Off, Algo::Lz4] {
        let after = converted(&image, FsTarget::Erofs, false, algo);
        assert_eq!(list(&after, "/"), "c\netc/\nlink\n");
        // Only the directory below the root is dropped.
        assert_eq!(list(&after, "/etc"), "a\nb\nlost+found/\ntwin\n");
        check_rest(&after);
    }
}

#[test]
fn ext4_keeps_whole_owners() {
    let mut root = tree();
    let c = root.children.iter_mut().find(|n| n.name == "c").unwrap();
    c.uid = 100_000;
    c.gid = 0xffff_fffe;
    let image = ext4_of(&mut root, false, 0);
    let mut source = Ext4Source::open(open(&image)).unwrap();
    let read = source.tree(2, String::new()).unwrap();
    let c = read.children.iter().find(|n| n.name == "c").unwrap();
    assert_eq!((c.uid, c.gid), (100_000, 0xffff_fffe));
}

#[test]
fn links_are_not_compressed() {
    let image = erofs(Algo::Lz4);
    let source = Source::open(open(&image)).unwrap();
    let root = source.tree(source.sb.root_nid, String::new()).unwrap();
    let layout = |name: &str| root.children.iter().find(|n| n.name == name).unwrap().layout;
    assert_eq!(layout("link"), 0);
    let etc = root.children.iter().find(|n| n.name == "etc").unwrap();
    assert!(etc.children.iter().all(|n| n.layout == 3));
    assert_eq!(cat(&image, "/link").unwrap(), "etc/b");
}

#[test]
fn small_blocks_are_planned() {
    let names: Vec<String> = (0..60).map(|i| format!("file-number-{i}")).collect();
    let root = directory_node(
        String::new(),
        0o40755,
        names.iter().map(|n| file(n, b"x")).collect(),
    );
    let d = directory(&root, 1024).unwrap();
    assert_eq!(d.len(), 2048);
    let (mut at, mut found) = (0, Vec::new());
    while at < d.len() {
        let record = u16::from_le_bytes([d[at + 4], d[at + 5]]) as usize;
        let name = &d[at + 8..at + 8 + d[at + 6] as usize];
        assert_eq!(at / 1024, (at + record - 1) / 1024);
        found.push(String::from_utf8(name.to_vec()).unwrap());
        at += record;
    }
    assert_eq!(at, d.len());
    assert_eq!(&found[..2], [".", ".."]);
    assert_eq!(found[2..], names);

    let mut all: Vec<&Node> = Vec::new();
    nodes(&root, &mut all);
    let total = plan_total_blocks(&mut Loaded, &small_profile(), &all, 0, false).unwrap();
    assert_eq!(total, 2 * 8192);
}

fn small_profile() -> image_worker::fs::ext4::Superblock {
    image_worker::fs::ext4::Superblock {
        block_size: 1024,
        inode_size: 256,
        blocks_per_group: 8192,
        inodes_per_group: 64,
        group_descriptor_size: 32,
        block_count: 0,
        compat: 0,
        incompat: 0x42,
        ro_compat: 0,
    }
}

#[test]
fn small_blocks_are_written() {
    for shared in [false, true] {
        let mut store = memory(Vec::new());
        let profile = small_profile();
        let mut root = tree();
        rebuild_generic(&mut Loaded, &profile, &mut root, shared, 9, false, false, &mut store).unwrap();
        let image = store.data;
        let word = |at: usize| u32::from_le_bytes(image[at..at + 4].try_into().unwrap());
        // Two groups, from the block of the superblock on.
        assert_eq!(image.len(), 2 * 8192 * 1024);
        assert_eq!(word(1024 + 4), 2 * 8192);
        assert_eq!(word(1024 + 20), 1);
        assert_eq!(image[1024..1280], image[8193 * 1024..8193 * 1024 + 256]);
        // One block of descriptors, then the bitmaps and the inode table.
        assert_eq!([word(2048), word(2052), word(2056)], [3, 4, 5]);
        assert_eq!([word(2080), word(2084), word(2088)], [8195, 8196, 8197]);
        // What is free is counted alike, and the bitmap agrees.
        let free = |at: usize| u16::from_le_bytes([image[at], image[at + 1]]) as u32;
        assert_eq!(word(1024 + 12), free(2048 + 12) + free(2080 + 12));
        let used: u32 = image[3 * 1024..4 * 1024].iter().map(|b| b.count_ones()).sum();
        assert_eq!(8192 - used, free(2048 + 12));
        assert_eq!(list(&image, "/"), "etc/\nlink\nc\n");
        check_rest(&image);
        for algo in [Algo::Off, Algo::Lz4] {
            let after = converted(&image, FsTarget::Erofs, false, algo);
            check_rest(&after);
        }
    }
}

#[test]
fn large_blocks_are_compressed() {
    for block_size in [8192, 16384, 32768, 65536] {
        for algo in [Algo::Lz4, Algo::Deflate] {
            let mut root = tree();
            root.children.push(file("long", &text(300_001)));
            let mut store = memory(Vec::new());
            convert_compressed(&mut Loaded, &mut root, block_size, algo, 1, &mut store).unwrap();
            let image = store.data;
            check_rest(&image);
            assert_eq!(cat(&image, "/long").unwrap().into_bytes(), text(300_001));
            let source = Source::open(open(&image)).unwrap();
            let root = source.tree(source.sb.root_nid, String::new()).unwrap();
            let long = root.children.iter().find(|n| n.name == "long").unwrap();
            // The words of an index have room for blocks of 14 bits.
            let packed = block_size <= 16384;
            assert_eq!(long.layout, if packed { 3 } else { 0 });
            let mut root = tree();
            root.children.push(file("long", &text(300_001)));
            let mut plain = memory(Vec::new());
            convert_plain(&mut Loaded, &mut root, block_size, 1, &mut plain).unwrap();
            // Two clusters of the text go into one block.
            let saved = 300_001u64.div_ceil(block_size) / 2 * block_size;
            let bound = if packed { plain.data.len() - saved as usize } else { plain.data.len() };
            assert!(image.len() <= bound, "{block_size}");
            assert!(packed || image.len() >= 300_001);
        }
    }
}

fn owners(image: &[u8]) -> Vec<(String, u32, u32)> {
    let source = Source::open(open(image)).unwrap();
    let root = source.tree(source.sb.root_nid, String::new()).unwrap();
    let mut all: Vec<&Node> = Vec::new();
    nodes(&root, &mut all);
    all.iter().map(|n| (n.name.clone(), n.uid, n.gid)).collect()
}

#[test]
fn erofs_keeps_whole_owners() {
    for algo in [Algo::Off, Algo::Lz4] {
        let mut root = tree();
        root.children[2].uid = 100_000;
        root.children[2].gid = 0xffff_fffe;
        root.children[0].children[0].uid = 0x1_0000;
        root.gid = 0x1_0001;
        let mut store = memory(Vec::new());
        if algo == Algo::Off {
            convert_plain(&mut Loaded, &mut root, 4096, 1, &mut store).unwrap();
        } else {
            convert_compressed(&mut Loaded, &mut root, 4096, algo, 1, &mut store).unwrap();
        }
        let image = store.data;
        check_rest(&image);
        let has = |image: &[u8], name: &str, uid: u32, gid: u32| {
            let found = owners(image);
            assert!(found.contains(&(name.to_owned(), uid, gid)), "{found:?}");
        };
        has(&image, "c", 100_000, 0xffff_fffe);
        has(&image, "a", 0x1_0000, 0);
        has(&image, "", 0, 0x1_0001);
        // An extended inode is patched in its place.
        let owner = |path: &str, uid, gid| (Action::SetOwner { path: path.to_owned(), uid, gid }, None);
        let (after, sent) = edited(&image, vec![owner("/c", 70_000, 3)], false).unwrap();
        assert!(sent);
        has(&after, "c", 70_000, 3);
        check_rest(&after);
        // A compact one has no room, so that the image is built afresh.
        let (after, sent) = edited(&image, vec![owner("/etc/b", 70_001, 4)], false).unwrap();
        assert!(!sent);
        has(&after, "b", 70_001, 4);
        has(&after, "c", 100_000, 0xffff_fffe);
        check_rest(&after);
        // A new file has an extended inode of its own, laid over the image
        let add = |name: &str, uid: u32| {
            let metadata = Metadata { uid: Some(uid), ..Metadata::default() };
            let destination = format!("/etc/{name}");
            let action = Action::Add { source: "host".to_owned(), destination, metadata };
            (action, Some(file("host", b"fresh")))
        };
        let (after, sent) = edited(&image, vec![add("new", 80_000), add("next", 80_001)], false).unwrap();
        assert!(sent);
        has(&after, "new", 80_000, 0);
        has(&after, "next", 80_001, 0);
        has(&after, "c", 100_000, 0xffff_fffe);
        assert_eq!(cat(&after, "/etc/new").unwrap(), "fresh");
        assert_eq!(cat(&after, "/etc/next").unwrap(), "fresh");
        check_rest(&after);
        // or behind its end, where the directory has a whole block.
        let source = Source::open(open(&image)).unwrap();
        let root = source.tree(source.sb.root_nid, String::new()).unwrap();
        let etc = root.children.iter().find(|c| c.name == "etc").unwrap();
        let inode = (source.sb.meta_blkaddr * 4096 + etc.nid * 32) as usize;
        let mut roomy = image.clone();
        roomy[inode + 8..inode + 12].copy_from_slice(&4096u32.to_le_bytes());
        let (after, sent) = edited(&roomy, vec![add("new", 80_000)], false).unwrap();
        assert!(sent);
        has(&after, "new", 80_000, 0);
        has(&after, "a", 0x1_0000, 0);
        assert_eq!(cat(&after, "/etc/new").unwrap(), "fresh");
        check_rest(&after);
    }
}

#[test]
fn compressed_files_end_in_zeros() {
    let image = erofs(Algo::Lz4);
    let source = Source::open(open(&image)).unwrap();
    let root = source.tree(source.sb.root_nid, String::new()).unwrap();
    let etc = root.children.iter().find(|n| n.name == "etc").unwrap();
    let a = etc.children.iter().find(|n| n.name == "a").unwrap();
    let mut blocks = ErofsBlockSource::new(&source);
    let mut expected = text(20_000);
    expected.resize(30_000, 0);
    for (offset, len) in [(19_990, 5_000), (0, 30_000), (20_000, 7), (25_000, 100), (4_000, 300), (3, 0)] {
        let served = blocks.read_node_block(a, offset, len).unwrap();
        assert_eq!(served, expected[offset as usize..offset as usize + len], "{offset}");
    }
}

#[test]
fn images_are_described() {
    let shown = run(&erofs(Algo::Off), "/", true, None, MetadataOptions::default()).unwrap();
    assert!(shown.starts_with("format=raw\n"), "{shown}");
    assert!(shown.contains("filesystem=erofs\nblock_size=4096\n"), "{shown}");
    let shown = run(&ext4(true, 0), "/", true, None, MetadataOptions::default()).unwrap();
    assert!(shown.contains("filesystem=ext4\nblock_size=4096\ninode_size=256\n"), "{shown}");
    assert!(shown.contains("feature_extents=true\n"), "{shown}");
    assert!(shown.contains("feature_shared_blocks=true\n"), "{shown}");
}

#[test]
fn files_are_found_and_told_apart() {
    let image = ext4(false, 0);
    let found = run(
        &image,
        "/",
        false,
        Some(Operation::Find(None)),
        MetadataOptions::default(),
    )
    .unwrap();
    let mut lines: Vec<&str> = found.lines().collect();
    lines.sort();
    assert_eq!(lines, ["/c", "/etc", "/etc/a", "/etc/b", "/etc/twin", "/link"]);
    let types = MetadataOptions { content_type: true, human_size: true, ..MetadataOptions::default() };
    let shown = run(&image, "/etc", false, Some(Operation::List), types).unwrap();
    assert!(shown.contains("UTF-8 text"), "{shown}");
    assert!(shown.contains("19.5 KiB"), "{shown}");
}

#[test]
fn wrong_requests_are_refused() {
    let image = ext4(false, 0);
    assert_eq!(message(cat(&image, "/nope")), "path component not found: nope");
    let both = MetadataOptions { size: true, ..MetadataOptions::default() };
    assert_eq!(
        message(run(&image, "/c", false, Some(Operation::Cat), both)),
        "--cat cannot be combined with info or metadata output"
    );
    assert!(message(run(&image, "/c", false, Some(Operation::List), MetadataOptions::default()))
        .contains("/c is not a directory"));
    assert_eq!(message(probe_fs(&open(&[0u8; 8192]))), "unsupported filesystem format");
    assert_eq!(message(Source::open(open(&image))), "EROFS magic is missing");
    assert_eq!(message(Ext4Source::open(open(&erofs(Algo::Off)))), "input is not ext4");
}
