use image_worker::error::Error;
use image_worker::text::path_parts;
use image_worker::write::edit::{
    added_name, apply_action, directory_node, find_path, memory_node, stdin_mode, Action, Metadata,
};
use image_worker::write::ext4_inode::lost_labels;
use image_worker::write::node::{collect_contexts, nodes, sort_tree, Node};

fn message<T>(r: Result<T, Error>) -> String {
    match r {
        Ok(_) => panic!("no error"),
        Err(e) => e.message(),
    }
}

fn file(name: &str, data: &[u8]) -> Node {
    memory_node(name.to_owned(), 0o100644, data.to_vec())
}

fn tree() -> Node {
    let mut a = file("a", b"alpha");
    a.nid = 40;
    a.original_nid = 40;
    a.uid = 7;
    a.context = Some("u:object_r:a:s0".to_owned());
    let etc = directory_node("etc".to_owned(), 0o40755, vec![a, file("b", b"beta")]);
    let empty = directory_node("empty".to_owned(), 0o40700, Vec::new());
    directory_node(String::new(), 0o40755, vec![etc, empty])
}

fn at<'a>(root: &'a Node, path: &str) -> Option<&'a Node> {
    find_path(root, &path_parts(path), 0)
}

fn remove(path: &str, recursive: bool) -> Action {
    Action::Remove { path: path.to_owned(), recursive }
}

fn copy(source: &str, destination: &str) -> Action {
    Action::Copy {
        source: source.to_owned(),
        destination: destination.to_owned(),
        metadata: Metadata::default(),
    }
}

fn rename(source: &str, destination: &str) -> Action {
    Action::Move {
        source: source.to_owned(),
        destination: destination.to_owned(),
        metadata: Metadata::default(),
    }
}

fn addition(destination: &str, metadata: Metadata) -> Action {
    Action::Add {
        source: "host".to_owned(),
        destination: destination.to_owned(),
        metadata,
    }
}

#[test]
fn files_are_added_and_replaced() {
    let mut root = tree();
    let m = Metadata { mode: Some(0o600), uid: Some(5), gid: None, context: Some("u:new".to_owned()) };
    let structural = apply_action(&mut root, addition("/etc/c", m), Some(file("c", b"gamma"))).unwrap();
    assert!(!structural);
    let c = at(&root, "/etc/c").unwrap();
    assert_eq!(c.data(), b"gamma");
    assert_eq!((c.mode & 0o7777, c.uid, c.gid), (0o600, 5, 0));
    assert_eq!(c.context.as_deref(), Some("u:new"));
    let replaced =
        apply_action(&mut root, addition("/etc/a", Metadata::default()), Some(file("a", b"other"))).unwrap();
    assert!(replaced);
    let a = at(&root, "/etc/a").unwrap();
    assert_eq!(a.data(), b"other");
    assert_eq!((a.nid, a.uid), (40, 7));
    assert_eq!(a.context.as_deref(), Some("u:object_r:a:s0"));
    assert_eq!(
        message(apply_action(&mut root, addition("/etc", Metadata::default()), Some(file("etc", b"")))),
        "cannot replace file with directory or directory with file"
    );
    assert_eq!(
        message(apply_action(&mut root, addition("/no/a", Metadata::default()), Some(file("a", b"")))),
        "destination directory not found: /no"
    );
    assert_eq!(
        message(apply_action(&mut root, addition("/", Metadata::default()), Some(file("a", b"")))),
        "destination must include a filename"
    );
}

#[test]
fn a_move_keeps_the_inode_and_a_copy_does_not() {
    let mut root = tree();
    assert!(apply_action(&mut root, copy("/etc/a", "/empty/twin"), None).unwrap());
    assert_eq!(at(&root, "/empty/twin").unwrap().nid, 0);
    assert_eq!(at(&root, "/empty/twin").unwrap().data(), b"alpha");
    assert!(at(&root, "/etc/a").is_some());
    assert!(apply_action(&mut root, rename("/etc/a", "/empty/moved"), None).unwrap());
    let moved = at(&root, "/empty/moved").unwrap();
    assert_eq!((moved.nid, moved.original_nid, moved.uid), (40, 40, 7));
    assert!(at(&root, "/etc/a").is_none());
    assert_eq!(message(apply_action(&mut root, copy("/x", "/y"), None)), "path not found: /x");
    assert_eq!(message(apply_action(&mut root, rename("/", "/y"), None)), "cannot remove root");
}

#[test]
fn files_are_removed() {
    let mut root = tree();
    assert_eq!(message(apply_action(&mut root, remove("/etc", false), None)), "directory not empty: /etc");
    assert!(apply_action(&mut root, remove("/empty", false), None).unwrap());
    assert!(at(&root, "/empty").is_none());
    assert!(apply_action(&mut root, remove("/etc/b", false), None).unwrap());
    assert!(at(&root, "/etc/a").is_some());
    assert!(apply_action(&mut root, remove("/etc", true), None).unwrap());
    assert_eq!(root.children.len(), 0);
    assert_eq!(message(apply_action(&mut root, remove("/etc", true), None)), "path not found: /etc");
}

fn names(root: &Node) -> Vec<String> {
    let mut list = Vec::new();
    nodes(root, &mut list);
    list.iter().map(|n| n.name.clone()).collect()
}

#[test]
fn refused_actions_leave_the_tree() {
    let mut root = tree();
    let before = names(&root);
    for action in [
        remove("/etc", false),
        remove("/nope", true),
        remove("/", true),
        copy("/nope", "/x"),
        copy("/etc/a", "/nope/x"),
        rename("/nope", "/x"),
        Action::SetOwner { path: "/nope".to_owned(), uid: 1, gid: 1 },
    ] {
        assert!(apply_action(&mut root, action, None).is_err());
        assert_eq!(names(&root), before);
    }
    assert!(apply_action(&mut root, addition("/nope/x", Metadata::default()), Some(file("x", b""))).is_err());
    assert_eq!(names(&root), before);
    // A move has taken the node out by the time its target is refused.
    assert!(apply_action(&mut root, rename("/etc/a", "/nope/x"), None).is_err());
    assert!(at(&root, "/etc/a").is_none());
    assert_eq!(names(&root).len(), before.len() - 1);
}

#[test]
fn metadata_is_set() {
    let mut root = tree();
    let set = Action::SetMode { path: "/etc/a".to_owned(), mode: 0o4711 };
    assert!(!apply_action(&mut root, set, None).unwrap());
    let set = Action::SetOwner { path: "/etc/a".to_owned(), uid: 1, gid: 2 };
    assert!(!apply_action(&mut root, set, None).unwrap());
    let set = Action::SetContext { path: "/etc/a".to_owned(), context: "u:x".to_owned() };
    assert!(!apply_action(&mut root, set, None).unwrap());
    let a = at(&root, "/etc/a").unwrap();
    assert_eq!((a.mode, a.uid, a.gid), (0o104711, 1, 2));
    assert_eq!(a.context.as_deref(), Some("u:x"));
    assert!(a.context_explicit && a.modified);
    let set = Action::SetMode { path: "/nope".to_owned(), mode: 0 };
    assert_eq!(message(apply_action(&mut root, set, None)), "path not found: /nope");
}

#[test]
fn added_files_get_names() {
    assert_eq!(added_name("/tmp/host.txt", "/etc/x").unwrap(), "host.txt");
    assert_eq!(added_name("-", "/etc/x").unwrap(), "x");
    assert_eq!(message(added_name("/", "/etc/x")), "source has no filename");
    assert_eq!(message(added_name("-", "/")), "destination has no filename");
    assert_eq!(stdin_mode(&Metadata::default()), 0o644);
    let m = Metadata { mode: Some(0o700), ..Metadata::default() };
    assert_eq!(stdin_mode(&m), 0o700);
}

#[test]
fn trees_are_sorted_and_listed() {
    let mut root = directory_node(
        String::new(),
        0o40755,
        vec![file("z", b""), directory_node("m".to_owned(), 0o40755, vec![file("y", b""), file("B", b"")]), file("a", b"")],
    );
    sort_tree(&mut root);
    let mut list = Vec::new();
    nodes(&root, &mut list);
    let names: Vec<&str> = list.iter().map(|n| n.name.as_str()).collect();
    assert_eq!(names, ["", "a", "m", "B", "y", "z"]);
    root.children[0].context = Some("u:b".to_owned());
    root.children[2].context = Some("u:a".to_owned());
    root.children[1].context = Some("u:b".to_owned());
    assert_eq!(collect_contexts(&root), ["u:a", "u:b"]);
}

#[test]
fn labels_that_do_not_fit_are_told() {
    let mut root = tree();
    assert!(lost_labels(&root, 256).is_empty());
    assert_eq!(
        lost_labels(&root, 128),
        ["dropping SELinux context of a: inode has no room for an inline SELinux xattr"]
    );
    root.children[1].context = Some("x".repeat(64));
    assert_eq!(
        lost_labels(&root, 256),
        ["dropping SELinux context of empty: SELinux context is missing or too long"]
    );
}
