//! Edits of the tree: adding, copying, moving and removing paths, and
//! changing their metadata.
use super::node::{node_views, node_views_update, Node, NodePayload, NodeView, PayloadView};
use crate::error::{fail, seen, Error, Fault};
use crate::text::{
    copy_opt, host_name, joined_path, last_name, opt_text, parts_of, path_parts, push_path,
    push_text, same, texts,
};
use vstd::prelude::*;

verus! {

/// Metadata that an action asks for; what is not there stays as it is.
pub struct Metadata {
    pub mode: Option<u16>,
    pub uid: Option<u32>,
    pub gid: Option<u32>,
    pub context: Option<String>,
}

/// The mathematical counterpart of [`Metadata`].
#[verifier::ext_equal]
pub struct MetaView {
    pub mode: Option<u16>,
    pub uid: Option<u32>,
    pub gid: Option<u32>,
    pub context: Option<Seq<char>>,
}

impl View for Metadata {
    type V = MetaView;

    open spec fn view(&self) -> MetaView {
        MetaView {
            mode: self.mode,
            uid: self.uid,
            gid: self.gid,
            context: opt_text(self.context),
        }
    }
}

/// No metadata.
pub open spec fn no_metadata() -> MetaView {
    MetaView { mode: None, uid: None, gid: None, context: None }
}

impl Default for Metadata {
    fn default() -> (m: Metadata)
        ensures
            m@ == no_metadata(),
    {
        Metadata { mode: None, uid: None, gid: None, context: None }
    }
}

impl Metadata {
    /// A copy of the metadata.
    pub fn duplicate(&self) -> (m: Metadata)
        ensures
            m@ == self@,
    {
        Metadata {
            mode: self.mode,
            uid: self.uid,
            gid: self.gid,
            context: copy_opt(&self.context),
        }
    }
}

/// One step of an edit.
pub enum Action {
    Add { source: String, destination: String, metadata: Metadata },
    Copy { source: String, destination: String, metadata: Metadata },
    Move { source: String, destination: String, metadata: Metadata },
    Remove { path: String, recursive: bool },
    SetContext { path: String, context: String },
    SetMode { path: String, mode: u16 },
    SetOwner { path: String, uid: u32, gid: u32 },
}

/// The mathematical counterpart of [`Action`].
#[verifier::ext_equal]
pub enum ActionView {
    Add { source: Seq<char>, destination: Seq<char>, metadata: MetaView },
    Copy { source: Seq<char>, destination: Seq<char>, metadata: MetaView },
    Move { source: Seq<char>, destination: Seq<char>, metadata: MetaView },
    Remove { path: Seq<char>, recursive: bool },
    SetContext { path: Seq<char>, context: Seq<char> },
    SetMode { path: Seq<char>, mode: u16 },
    SetOwner { path: Seq<char>, uid: u32, gid: u32 },
}

impl View for Action {
    type V = ActionView;

    open spec fn view(&self) -> ActionView {
        match self {
            Action::Add { source, destination, metadata } => ActionView::Add {
                source: source@,
                destination: destination@,
                metadata: metadata@,
            },
            Action::Copy { source, destination, metadata } => ActionView::Copy {
                source: source@,
                destination: destination@,
                metadata: metadata@,
            },
            Action::Move { source, destination, metadata } => ActionView::Move {
                source: source@,
                destination: destination@,
                metadata: metadata@,
            },
            Action::Remove { path, recursive } => ActionView::Remove {
                path: path@,
                recursive: *recursive,
            },
            Action::SetContext { path, context } => ActionView::SetContext {
                path: path@,
                context: context@,
            },
            Action::SetMode { path, mode } => ActionView::SetMode { path: path@, mode: *mode },
            Action::SetOwner { path, uid, gid } => ActionView::SetOwner {
                path: path@,
                uid: *uid,
                gid: *gid,
            },
        }
    }
}

// ---------------------------------------------------------------------
// Looking up
// ---------------------------------------------------------------------
/// The first child with the name, from the `i`th on.
pub open spec fn child_from(s: Seq<NodeView>, name: Seq<char>, dirs_only: bool, i: int) -> Option<
    int,
>
    decreases s.len() - i,
{
    if i >= s.len() {
        None
    } else if s[i].name == name && (s[i].is_dir() || !dirs_only) {
        Some(i)
    } else {
        child_from(s, name, dirs_only, i + 1)
    }
}

/// The first child with the name.
pub open spec fn child_named(s: Seq<NodeView>, name: Seq<char>) -> Option<int> {
    child_from(s, name, false, 0)
}

/// The first child that is a directory with the name.
pub open spec fn child_dir(s: Seq<NodeView>, name: Seq<char>) -> Option<int> {
    child_from(s, name, true, 0)
}

/// What is found is a child with the name, and the first one.
pub proof fn child_from_is_first(s: Seq<NodeView>, name: Seq<char>, dirs_only: bool, i: int)
    requires
        0 <= i,
    ensures
        match child_from(s, name, dirs_only, i) {
            Some(k) => {
                &&& i <= k < s.len()
                &&& s[k].name == name
                &&& s[k].is_dir() || !dirs_only
                &&& forall|j: int| i <= j < k ==> (#[trigger] s[j]).name != name || (dirs_only && !s[j].is_dir())
            },
            None => forall|j: int|
                i <= j < s.len() ==> (#[trigger] s[j]).name != name || (dirs_only
                    && !s[j].is_dir()),
        },
    decreases s.len() - i,
{
    if i < s.len() && !(s[i].name == name && (s[i].is_dir() || !dirs_only)) {
        child_from_is_first(s, name, dirs_only, i + 1);
    }
}

fn find_child(v: &Vec<Node>, name: &str, dirs_only: bool) -> (r: Option<usize>)
    ensures
        match r {
            Some(k) => k < v@.len() && child_from(node_views(v@), name@, dirs_only, 0) == Some(
                k as int,
            ),
            None => child_from(node_views(v@), name@, dirs_only, 0) is None,
        },
{
    let mut i: usize = 0;
    while i < v.len()
        invariant
            i <= v@.len(),
            child_from(node_views(v@), name@, dirs_only, 0) == child_from(
                node_views(v@),
                name@,
                dirs_only,
                i as int,
            ),
        decreases v.len() - i,
    {
        assert(node_views(v@)[i as int] == v@[i as int]@);
        if same(v[i].name.as_str(), name) && (!dirs_only || v[i].is_dir()) {
            return Some(i);
        }
        i += 1;
    }
    None
}

/// The node at a path.
pub open spec fn node_at(n: NodeView, parts: Seq<Seq<char>>) -> Option<NodeView>
    decreases parts.len(),
{
    if parts.len() == 0 {
        Some(n)
    } else {
        match child_named(n.children, parts[0]) {
            None => None,
            Some(i) => node_at(n.children[i], parts.drop_first()),
        }
    }
}

/// The node at the path made of the parts from `level` on.
pub fn find_path<'a>(node: &'a Node, parts: &Vec<String>, level: usize) -> (r: Option<&'a Node>)
    requires
        level <= parts@.len(),
    ensures
        match r {
            Some(x) => node_at(node@, texts(parts@).skip(level as int)) == Some(x@),
            None => node_at(node@, texts(parts@).skip(level as int)) is None,
        },
    decreases node,
{
    let ghost rest = texts(parts@).skip(level as int);
    if level == parts.len() {
        return Some(node);
    }
    assert(rest[0] == parts@[level as int]@);
    assert(rest.drop_first() =~= texts(parts@).skip(level + 1));
    match find_child(&node.children, parts[level].as_str(), false) {
        None => None,
        Some(i) => {
            assert(node_views(node.children@)[i as int] == node.children@[i as int]@);
            find_path(&node.children[i], parts, level + 1)
        },
    }
}

// ---------------------------------------------------------------------
// Metadata
// ---------------------------------------------------------------------
/// The mode with its permission bits replaced.
pub open spec fn with_permissions(mode: u16, permissions: u16) -> u16 {
    (mode & 0xf000) | (permissions & 0x0fff)
}

/// The node with the metadata asked for.
pub open spec fn with_metadata(n: NodeView, m: MetaView) -> NodeView {
    NodeView {
        mode: match m.mode {
            Some(mode) => with_permissions(n.mode, mode),
            None => n.mode,
        },
        uid: match m.uid {
            Some(uid) => uid,
            None => n.uid,
        },
        gid: match m.gid {
            Some(gid) => gid,
            None => n.gid,
        },
        context: if m.context is Some {
            m.context
        } else {
            n.context
        },
        context_explicit: n.context_explicit || m.context is Some,
        modified: n.modified || m != no_metadata(),
        ..n
    }
}

/// Sets the metadata asked for.
pub fn apply_metadata(node: &mut Node, metadata: &Metadata)
    ensures
        final(node)@ == with_metadata(old(node)@, metadata@),
{
    if let Some(mode) = metadata.mode {
        node.mode = (node.mode & 0xf000) | (mode & 0x0fff);
        node.modified = true;
    }
    if let Some(uid) = metadata.uid {
        node.uid = uid;
        node.modified = true;
    }
    if let Some(gid) = metadata.gid {
        node.gid = gid;
        node.modified = true;
    }
    if let Some(context) = &metadata.context {
        node.context = Some(context.clone());
        node.context_explicit = true;
        node.modified = true;
    }
}

/// The tree with the metadata of the node at a path set.
pub open spec fn retouched(n: NodeView, parts: Seq<Seq<char>>, m: MetaView) -> Option<NodeView>
    decreases parts.len(),
{
    if parts.len() == 0 {
        Some(with_metadata(n, m))
    } else {
        match child_named(n.children, parts[0]) {
            None => None,
            Some(i) => match retouched(n.children[i], parts.drop_first(), m) {
                None => None,
                Some(c) => Some(NodeView { children: n.children.update(i, c), ..n }),
            },
        }
    }
}

/// Sets the metadata of the node at the path made of the parts from `level`
/// on. The result says whether there is one.
pub fn retouch(node: &mut Node, parts: &Vec<String>, level: usize, metadata: &Metadata) -> (r: bool)
    requires
        level <= parts@.len(),
    ensures
        match retouched(old(node)@, texts(parts@).skip(level as int), metadata@) {
            Some(n) => r && final(node)@ == n,
            None => !r && final(node)@ == old(node)@,
        },
    decreases *old(node),
{
    let ghost rest = texts(parts@).skip(level as int);
    if level == parts.len() {
        apply_metadata(node, metadata);
        return true;
    }
    assert(rest[0] == parts@[level as int]@);
    assert(rest.drop_first() =~= texts(parts@).skip(level + 1));
    let ghost first = node.children@;
    match find_child(&node.children, parts[level].as_str(), false) {
        None => false,
        Some(i) => {
            let done = retouch(&mut node.children[i], parts, level + 1, metadata);
            proof {
                node_views_update(first, i as int, node.children@[i as int]);
                assert(node.children@ =~= first.update(i as int, node.children@[i as int]));
                assert(node_views(first).update(i as int, first[i as int]@) =~= node_views(first));
            }
            done
        },
    }
}

// ---------------------------------------------------------------------
// Removing
// ---------------------------------------------------------------------
/// There is no directory at the parts.
pub open spec fn no_directory<T>(parts: Seq<Seq<char>>) -> Result<T, Fault> {
    fail("destination directory not found: /"@ + joined_path(parts))
}

/// There is nothing at the parts.
pub open spec fn no_path<T>(parts: Seq<Seq<char>>) -> Result<T, Fault> {
    fail("path not found: /"@ + joined_path(parts))
}

/// The tree without the child `name` of the directory at `dirs`, and that
/// child. `whole` is the path that is asked for.
pub open spec fn removed(
    n: NodeView,
    dirs: Seq<Seq<char>>,
    name: Seq<char>,
    whole: Seq<Seq<char>>,
) -> Result<(NodeView, NodeView), Fault>
    decreases dirs.len(),
{
    if dirs.len() == 0 {
        match child_named(n.children, name) {
            None => no_path(whole),
            Some(i) => Ok(
                (NodeView { children: n.children.remove(i), ..n }, n.children[i]),
            ),
        }
    } else {
        match child_dir(n.children, dirs[0]) {
            None => no_directory(dirs),
            Some(i) => match removed(n.children[i], dirs.drop_first(), name, whole) {
                Err(e) => Err(e),
                Ok((c, x)) => Ok((NodeView { children: n.children.update(i, c), ..n }, x)),
            },
        }
    }
}

/// The tree without what is at a path, and that node.
pub open spec fn without(n: NodeView, parts: Seq<Seq<char>>) -> Result<(NodeView, NodeView), Fault> {
    if parts.len() == 0 {
        fail("cannot remove root"@)
    } else {
        removed(n, parts.drop_last(), parts.last(), parts)
    }
}

fn directory_error(parts: &Vec<String>, from: usize, to: usize) -> (e: Error)
    requires
        from <= to <= parts@.len(),
    ensures
        e@ == Fault::Invalid(
            "destination directory not found: /"@ + joined_path(
                texts(parts@).subrange(from as int, to as int),
            ),
        ),
{
    let mut s: String = "destination directory not found: /".to_owned();
    push_path(&mut s, parts, from, to);
    Error::Invalid(s)
}

fn remove_at(node: &mut Node, parts: &Vec<String>, level: usize) -> (r: Result<Node, Error>)
    requires
        level < parts@.len(),
    ensures
        match removed(
            old(node)@,
            texts(parts@).subrange(level as int, parts@.len() - 1),
            texts(parts@).last(),
            texts(parts@),
        ) {
            Ok((n, x)) => r is Ok && final(node)@ == n && r->Ok_0@ == x,
            Err(e) => r is Err && r->Err_0@ == e && final(node)@ == old(node)@,
        },
    decreases *old(node),
{
    let ghost dirs = texts(parts@).subrange(level as int, parts@.len() - 1);
    let ghost first = node.children@;
    let last = parts.len() - 1;
    assert(texts(parts@).last() == parts@[last as int]@);
    if level == last {
        match find_child(&node.children, parts[last].as_str(), false) {
            None => {
                let mut s: String = "path not found: /".to_owned();
                push_path(&mut s, parts, 0, parts.len());
                assert(texts(parts@).subrange(0, parts@.len() as int) =~= texts(parts@));
                Err(Error::Invalid(s))
            },
            Some(i) => {
                let x = node.children.remove(i);
                assert(node_views(first)[i as int] == first[i as int]@);
                assert(node_views(node.children@) =~= node_views(first).remove(i as int));
                Ok(x)
            },
        }
    } else {
        assert(dirs[0] == parts@[level as int]@);
        assert(dirs.drop_first() =~= texts(parts@).subrange(level + 1, parts@.len() - 1));
        match find_child(&node.children, parts[level].as_str(), true) {
            None => Err(directory_error(parts, level, last)),
            Some(i) => {
                let r = remove_at(&mut node.children[i], parts, level + 1);
                proof {
                    node_views_update(first, i as int, node.children@[i as int]);
                    assert(node.children@ =~= first.update(i as int, node.children@[i as int]));
                    assert(node_views(first).update(i as int, first[i as int]@) =~= node_views(
                        first,
                    ));
                }
                r
            },
        }
    }
}

/// Takes what is at a path out of the tree.
pub fn remove_path(node: &mut Node, parts: &Vec<String>) -> (r: Result<Node, Error>)
    ensures
        match without(old(node)@, texts(parts@)) {
            Ok((n, x)) => r is Ok && final(node)@ == n && r->Ok_0@ == x,
            Err(e) => r is Err && r->Err_0@ == e && final(node)@ == old(node)@,
        },
{
    if parts.len() == 0 {
        return Err(Error::invalid("cannot remove root"));
    }
    assert(texts(parts@).drop_last() =~= texts(parts@).subrange(0, parts@.len() - 1));
    remove_at(node, parts, 0)
}

// ---------------------------------------------------------------------
// Inserting
// ---------------------------------------------------------------------
/// The tree with no numbers of its own.
pub open spec fn anonymous(n: NodeView) -> NodeView
    decreases n,
{
    NodeView { nid: 0, parent_nid: 0, children: all_anonymous(n.children), ..n }
}

/// The trees with no numbers of their own.
pub open spec fn all_anonymous(s: Seq<NodeView>) -> Seq<NodeView>
    decreases s,
{
    Seq::new(
        s.len(),
        |i: int|
            if 0 <= i < s.len() {
                anonymous(s[i])
            } else {
                arbitrary()
            },
    )
}

/// Takes the numbers from the tree.
pub fn clear_identity(node: &mut Node)
    ensures
        final(node)@ == anonymous(old(node)@),
    decreases *old(node),
{
    node.nid = 0;
    node.parent_nid = 0;
    let n = node.children.len();
    let mut i: usize = 0;
    let ghost first = node.children@;
    while i < n
        invariant
            i <= n == first.len() == node.children@.len(),
            first == old(node).children@,
            forall|k: int| i <= k < n ==> node.children@[k] == first[k],
            forall|k: int| 0 <= k < i ==> (#[trigger] node.children@[k])@ == anonymous(first[k]@),
            *node == (Node { nid: 0, parent_nid: 0, children: node.children, ..*old(node) }),
        decreases n - i,
    {
        clear_identity(&mut node.children[i]);
        i += 1;
    }
    proof {
        assert(node_views(node.children@) =~= all_anonymous(node_views(first)));
    }
}

/// A node in the place of an existing one: it takes over the metadata that
/// is not asked for, and the numbers.
pub open spec fn replacing(existing: NodeView, n: NodeView, m: MetaView) -> NodeView {
    NodeView {
        mode: if m.mode is None {
            existing.mode
        } else {
            n.mode
        },
        uid: if m.uid is None {
            existing.uid
        } else {
            n.uid
        },
        gid: if m.gid is None {
            existing.gid
        } else {
            n.gid
        },
        context: if m.context is None {
            existing.context
        } else {
            n.context
        },
        context_explicit: m.context is Some && n.context_explicit,
        nid: existing.nid,
        original_nid: if n.original_nid == 0 {
            existing.original_nid
        } else {
            n.original_nid
        },
        parent_nid: existing.parent_nid,
        modified: true,
        content_changed: true,
        ..n
    }
}

/// The directory with the node among its children, and whether it replaced
/// one.
pub open spec fn placed(dir: NodeView, n: NodeView, m: MetaView, keep: bool) -> Result<
    (NodeView, bool),
    Fault,
> {
    match child_named(dir.children, n.name) {
        Some(i) => if dir.children[i].is_dir() != n.is_dir() {
            fail("cannot replace file with directory or directory with file"@)
        } else {
            Ok(
                (
                    NodeView {
                        children: dir.children.update(i, replacing(dir.children[i], n, m)),
                        ..dir
                    },
                    true,
                ),
            )
        },
        None => Ok(
            (
                NodeView {
                    children: dir.children.push(
                        if keep {
                            n
                        } else {
                            anonymous(n)
                        },
                    ),
                    ..dir
                },
                false,
            ),
        ),
    }
}

/// The tree with the node among the children of the directory at `dirs`,
/// and whether it replaced one.
pub open spec fn inserted(
    root: NodeView,
    dirs: Seq<Seq<char>>,
    n: NodeView,
    m: MetaView,
    keep: bool,
) -> Result<(NodeView, bool), Fault>
    decreases dirs.len(),
{
    if dirs.len() == 0 {
        placed(root, n, m, keep)
    } else {
        match child_dir(root.children, dirs[0]) {
            None => no_directory(dirs),
            Some(i) => match inserted(root.children[i], dirs.drop_first(), n, m, keep) {
                Err(e) => Err(e),
                Ok((c, b)) => Ok((NodeView { children: root.children.update(i, c), ..root }, b)),
            },
        }
    }
}

/// The tree with the node at a path, and whether it replaced one.
pub open spec fn with_node(
    root: NodeView,
    parts: Seq<Seq<char>>,
    n: NodeView,
    m: MetaView,
    keep: bool,
) -> Result<(NodeView, bool), Fault> {
    if parts.len() == 0 {
        fail("destination must include a filename"@)
    } else {
        inserted(
            root,
            parts.drop_last(),
            with_metadata(NodeView { name: parts.last(), ..n }, m),
            m,
            keep,
        )
    }
}

fn place_node(dir: &mut Node, mut node: Node, metadata: &Metadata, keep_identity: bool) -> (r: Result<
    bool,
    Error,
>)
    ensures
        match placed(old(dir)@, node@, metadata@, keep_identity) {
            Ok((n, b)) => r == Ok::<bool, Error>(b) && final(dir)@ == n,
            Err(e) => r is Err && r->Err_0@ == e && final(dir)@ == old(dir)@,
        },
{
    let ghost n = node@;
    let ghost first = dir.children@;
    match find_child(&dir.children, node.name.as_str(), false) {
        Some(i) => {
            assert(node_views(first)[i as int] == first[i as int]@);
            if dir.children[i].is_dir() != node.is_dir() {
                return Err(
                    Error::invalid("cannot replace file with directory or directory with file"),
                );
            }
            if metadata.mode.is_none() {
                node.mode = dir.children[i].mode;
            }
            if metadata.uid.is_none() {
                node.uid = dir.children[i].uid;
            }
            if metadata.gid.is_none() {
                node.gid = dir.children[i].gid;
            }
            if metadata.context.is_none() {
                node.context = copy_opt(&dir.children[i].context);
                node.context_explicit = false;
            }
            node.nid = dir.children[i].nid;
            if node.original_nid == 0 {
                node.original_nid = dir.children[i].original_nid;
            }
            node.parent_nid = dir.children[i].parent_nid;
            node.modified = true;
            node.content_changed = true;
            let ghost added = node;
            dir.children.set(i, node);
            proof {
                node_views_update(first, i as int, added);
                assert(added@ =~= replacing(first[i as int]@, n, metadata@));
            }
            Ok(true)
        },
        None => {
            if !keep_identity {
                clear_identity(&mut node);
            }
            let ghost added = node@;
            dir.children.push(node);
            assert(node_views(dir.children@) =~= node_views(first).push(added));
            Ok(false)
        },
    }
}

fn insert_at(
    root: &mut Node,
    parts: &Vec<String>,
    level: usize,
    node: Node,
    metadata: &Metadata,
    keep_identity: bool,
) -> (r: Result<bool, Error>)
    requires
        level < parts@.len(),
    ensures
        match inserted(
            old(root)@,
            texts(parts@).subrange(level as int, parts@.len() - 1),
            node@,
            metadata@,
            keep_identity,
        ) {
            Ok((n, b)) => r == Ok::<bool, Error>(b) && final(root)@ == n,
            Err(e) => r is Err && r->Err_0@ == e && final(root)@ == old(root)@,
        },
    decreases *old(root),
{
    let ghost dirs = texts(parts@).subrange(level as int, parts@.len() - 1);
    let ghost first = root.children@;
    let last = parts.len() - 1;
    if level == last {
        return place_node(root, node, metadata, keep_identity);
    }
    assert(dirs[0] == parts@[level as int]@);
    assert(dirs.drop_first() =~= texts(parts@).subrange(level + 1, parts@.len() - 1));
    match find_child(&root.children, parts[level].as_str(), true) {
        None => Err(directory_error(parts, level, last)),
        Some(i) => {
            let r = insert_at(
                &mut root.children[i],
                parts,
                level + 1,
                node,
                metadata,
                keep_identity,
            );
            proof {
                node_views_update(first, i as int, root.children@[i as int]);
                assert(root.children@ =~= first.update(i as int, root.children@[i as int]));
                assert(node_views(first).update(i as int, first[i as int]@) =~= node_views(first));
            }
            r
        },
    }
}

/// Puts the node at a path. The result says whether it replaced one.
pub fn insert_path(
    root: &mut Node,
    destination: &str,
    mut node: Node,
    metadata: &Metadata,
    keep_identity: bool,
) -> (r: Result<bool, Error>)
    ensures
        match with_node(old(root)@, parts_of(destination@), node@, metadata@, keep_identity) {
            Ok((n, b)) => r == Ok::<bool, Error>(b) && final(root)@ == n,
            Err(e) => r is Err && r->Err_0@ == e && final(root)@ == old(root)@,
        },
{
    let parts = path_parts(destination);
    if parts.len() == 0 {
        return Err(Error::invalid("destination must include a filename"));
    }
    let last = parts.len() - 1;
    assert(texts(parts@).last() == parts@[last as int]@);
    assert(texts(parts@).drop_last() =~= texts(parts@).subrange(0, parts@.len() - 1));
    node.name = parts[last].clone();
    apply_metadata(&mut node, metadata);
    insert_at(root, &parts, 0, node, metadata, keep_identity)
}

// ---------------------------------------------------------------------
// Actions
// ---------------------------------------------------------------------
/// The path is not there.
pub open spec fn not_found<T>(path: Seq<char>) -> Result<T, Fault> {
    fail("path not found: "@ + path)
}

/// The name under which an added file is loaded: that of the file, or that
/// of the destination where the content comes from the standard input.
pub open spec fn loaded_name(source: Seq<char>, destination: Seq<char>) -> Result<Seq<char>, Fault> {
    if source == "-"@ {
        match last_name(parts_of(destination)) {
            None => fail("destination has no filename"@),
            Some(name) => Ok(name),
        }
    } else {
        match last_name(parts_of(source)) {
            None => fail("source has no filename"@),
            Some(name) => Ok(name),
        }
    }
}

/// The name under which an added file is loaded.
pub fn added_name(source: &str, destination: &str) -> (r: Result<String, Error>)
    ensures
        seen(r) == loaded_name(source@, destination@),
{
    if same(source, "-") {
        match host_name(destination) {
            None => Err(Error::invalid("destination has no filename")),
            Some(name) => Ok(name),
        }
    } else {
        match host_name(source) {
            None => Err(Error::invalid("source has no filename")),
            Some(name) => Ok(name),
        }
    }
}

/// A file with the given content and nothing else.
pub open spec fn loaded_file(name: Seq<char>, mode: u16, data: Seq<u8>) -> NodeView {
    NodeView {
        nid: 0,
        original_nid: 0,
        parent_nid: 0,
        name,
        mode,
        uid: 0,
        gid: 0,
        payload: PayloadView::Memory(data),
        data_size: data.len() as u64,
        children: Seq::empty(),
        layout: 0,
        raw_block: 0,
        modified: true,
        content_changed: false,
        context: None,
        context_explicit: false,
        extents: Seq::empty(),
        erofs_compact_clusters: 0,
    }
}

/// A file with the given content.
pub fn memory_node(name: String, mode: u16, data: Vec<u8>) -> (n: Node)
    ensures
        n@ == loaded_file(name@, mode, data@),
{
    let n = Node {
        nid: 0,
        original_nid: 0,
        parent_nid: 0,
        name,
        mode,
        uid: 0,
        gid: 0,
        data_size: data.len() as u64,
        payload: NodePayload::Memory(data),
        children: Vec::new(),
        layout: 0,
        raw_block: 0,
        modified: true,
        content_changed: false,
        context: None,
        context_explicit: false,
        extents: Vec::new(),
        erofs_compact_clusters: 0,
    };
    assert(n@.children =~= Seq::empty());
    n
}

/// A directory with the given children.
pub fn directory_node(name: String, mode: u16, children: Vec<Node>) -> (n: Node)
    ensures
        n@ == (NodeView {
            payload: PayloadView::Empty,
            children: node_views(children@),
            ..loaded_file(name@, mode, Seq::empty())
        }),
{
    Node {
        nid: 0,
        original_nid: 0,
        parent_nid: 0,
        name,
        mode,
        uid: 0,
        gid: 0,
        payload: NodePayload::Empty,
        data_size: 0,
        children,
        layout: 0,
        raw_block: 0,
        modified: true,
        content_changed: false,
        context: None,
        context_explicit: false,
        extents: Vec::new(),
        erofs_compact_clusters: 0,
    }
}

/// The permissions of content from the standard input.
pub fn stdin_mode(metadata: &Metadata) -> (mode: u16)
    ensures
        mode == (match metadata@.mode {
            Some(mode) => mode,
            None => 0o644u16,
        }),
{
    match metadata.mode {
        Some(mode) => mode,
        None => 0o644,
    }
}

/// The metadata change of an action on one path.
pub open spec fn touch(root: NodeView, path: Seq<char>, m: MetaView) -> Result<
    (NodeView, bool),
    Fault,
> {
    match retouched(root, parts_of(path), m) {
        None => not_found(path),
        Some(n) => Ok((n, false)),
    }
}

/// The tree after an action, and whether the action changed its structure.
/// `added` is what an addition loads.
pub open spec fn applied(root: NodeView, action: ActionView, added: Option<NodeView>) -> Result<
    (NodeView, bool),
    Fault,
> {
    match action {
        ActionView::Add { source, destination, metadata } => match added {
            None => fail("source has no filename"@),
            Some(n) => with_node(root, parts_of(destination), n, metadata, false),
        },
        ActionView::Copy { source, destination, metadata } => match node_at(
            root,
            parts_of(source),
        ) {
            None => not_found(source),
            Some(n) => match with_node(root, parts_of(destination), n, metadata, false) {
                Err(e) => Err(e),
                Ok((t, _)) => Ok((t, true)),
            },
        },
        ActionView::Move { source, destination, metadata } => match without(
            root,
            parts_of(source),
        ) {
            Err(e) => Err(e),
            Ok((rest, n)) => match last_name(parts_of(destination)) {
                None => fail("destination has no filename"@),
                Some(_) => match with_node(rest, parts_of(destination), n, metadata, true) {
                    Err(e) => Err(e),
                    Ok((t, _)) => Ok((t, true)),
                },
            },
        },
        ActionView::SetMode { path, mode } => touch(
            root,
            path,
            MetaView { mode: Some(mode), ..no_metadata() },
        ),
        ActionView::SetOwner { path, uid, gid } => touch(
            root,
            path,
            MetaView { uid: Some(uid), gid: Some(gid), ..no_metadata() },
        ),
        ActionView::SetContext { path, context } => touch(
            root,
            path,
            MetaView { context: Some(context), ..no_metadata() },
        ),
        ActionView::Remove { path, recursive } => match node_at(root, parts_of(path)) {
            None => not_found(path),
            Some(n) => if n.is_dir() && n.children.len() > 0 && !recursive {
                fail("directory not empty: "@ + path)
            } else {
                match without(root, parts_of(path)) {
                    Err(e) => Err(e),
                    Ok((t, _)) => Ok((t, true)),
                }
            },
        },
    }
}

/// The tree after an action that was refused. It is what it was, but for a
/// move whose target is refused: that has taken the node out by then.
pub open spec fn after_refusal(root: NodeView, action: ActionView) -> NodeView {
    match action {
        ActionView::Move { source, .. } => match without(root, parts_of(source)) {
            Err(_) => root,
            Ok((rest, _)) => rest,
        },
        _ => root,
    }
}

fn not_found_error(path: &str) -> (e: Error)
    ensures
        e@ == Fault::Invalid("path not found: "@ + path@),
{
    let mut s: String = "path not found: ".to_owned();
    push_text(&mut s, path);
    Error::Invalid(s)
}

fn touch_path(root: &mut Node, path: &str, metadata: &Metadata) -> (r: Result<bool, Error>)
    ensures
        match touch(old(root)@, path@, metadata@) {
            Ok((n, b)) => r == Ok::<bool, Error>(b) && final(root)@ == n,
            Err(e) => r is Err && r->Err_0@ == e && final(root)@ == old(root)@,
        },
{
    let parts = path_parts(path);
    assert(texts(parts@).skip(0) =~= texts(parts@));
    if retouch(root, &parts, 0, metadata) {
        Ok(false)
    } else {
        Err(not_found_error(path))
    }
}

/// Applies an action to the tree. The result says whether it changed the
/// structure: a name that was there was replaced, or an entry came, went or
/// moved. `added` is what an addition loads.
pub fn apply_action(root: &mut Node, action: Action, added: Option<Node>) -> (r: Result<
    bool,
    Error,
>)
    requires
        action is Add ==> added is Some,
    ensures
        match applied(
            old(root)@,
            action@,
            match added {
                Some(n) => Some(n@),
                None => None,
            },
        ) {
            Ok((n, b)) => r == Ok::<bool, Error>(b) && final(root)@ == n,
            Err(e) => r is Err && r->Err_0@ == e && final(root)@ == after_refusal(
                old(root)@,
                action@,
            ),
        },
{
    match action {
        Action::Add { source: _, destination, metadata } => match added {
            None => Err(Error::invalid("source has no filename")),
            Some(node) => insert_path(root, destination.as_str(), node, &metadata, false),
        },
        Action::Copy { source, destination, metadata } => {
            let parts = path_parts(source.as_str());
            assert(texts(parts@).skip(0) =~= texts(parts@));
            let node = match find_path(root, &parts, 0) {
                None => {
                    return Err(not_found_error(source.as_str()));
                },
                Some(found) => found.duplicate(),
            };
            match insert_path(root, destination.as_str(), node, &metadata, false) {
                Err(e) => Err(e),
                Ok(_) => Ok(true),
            }
        },
        Action::Move { source, destination, metadata } => {
            let parts = path_parts(source.as_str());
            let node = match remove_path(root, &parts) {
                Err(e) => {
                    return Err(e);
                },
                Ok(node) => node,
            };
            if host_name(destination.as_str()).is_none() {
                return Err(Error::invalid("destination has no filename"));
            }
            match insert_path(root, destination.as_str(), node, &metadata, true) {
                Err(e) => Err(e),
                Ok(_) => Ok(true),
            }
        },
        Action::SetMode { path, mode } => {
            let m = Metadata { mode: Some(mode), uid: None, gid: None, context: None };
            touch_path(root, path.as_str(), &m)
        },
        Action::SetOwner { path, uid, gid } => {
            let m = Metadata { mode: None, uid: Some(uid), gid: Some(gid), context: None };
            touch_path(root, path.as_str(), &m)
        },
        Action::SetContext { path, context } => {
            let m = Metadata { mode: None, uid: None, gid: None, context: Some(context) };
            touch_path(root, path.as_str(), &m)
        },
        Action::Remove { path, recursive } => {
            let parts = path_parts(path.as_str());
            assert(texts(parts@).skip(0) =~= texts(parts@));
            match find_path(root, &parts, 0) {
                None => {
                    return Err(not_found_error(path.as_str()));
                },
                Some(target) => {
                    proof {
                        assert(node_views(target.children@).len() == target.children@.len());
                        assert(target@.children == node_views(target.children@));
                    }
                    if target.is_dir() && target.children.len() > 0 && !recursive {
                        let mut s: String = "directory not empty: ".to_owned();
                        push_text(&mut s, path.as_str());
                        return Err(Error::Invalid(s));
                    }
                },
            }
            match remove_path(root, &parts) {
                Err(e) => Err(e),
                Ok(_) => Ok(true),
            }
        },
    }
}

} // verus!
