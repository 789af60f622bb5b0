//! What each action comes to, said of the paths that it names.
use super::edit::{
    all_anonymous, anonymous, applied, child_dir, child_from_is_first, child_named, inserted,
    no_metadata, node_at, removed, with_metadata, with_node, without, ActionView, MetaView,
};
use super::edit_laws::{
    distinct, insertion_fills_the_path, metadata_changes_one_node, on_the_way,
    removal_empties_the_path, subtree_is_distinct,
};
use super::node::NodeView;
use crate::text::parts_of;
use vstd::prelude::*;

verus! {

/// The metadata of `x` is what `m` asks for; what it does not ask for is that of
/// `base`.
pub open spec fn as_asked(x: NodeView, base: NodeView, m: MetaView) -> bool {
    &&& match m.mode {
        Some(p) => x.mode & 0x0fff == p & 0x0fff,
        None => x.mode == base.mode,
    }
    &&& match m.uid {
        Some(u) => x.uid == u,
        None => x.uid == base.uid,
    }
    &&& match m.gid {
        Some(g) => x.gid == g,
        None => x.gid == base.gid,
    }
    &&& match m.context {
        Some(c) => x.context == Some(c),
        None => x.context == base.context,
    }
}

/// Two nodes have the same content.
pub open spec fn same_content(x: NodeView, n: NodeView) -> bool {
    &&& x.payload == n.payload
    &&& x.data_size == n.data_size
    &&& x.layout == n.layout
    &&& x.raw_block == n.raw_block
    &&& x.extents == n.extents
    &&& x.erofs_compact_clusters == n.erofs_compact_clusters
}

/// Two trees are the same but for the numbers of their nodes.
pub open spec fn same_but_for_numbers(x: NodeView, n: NodeView) -> bool
    decreases n,
{
    &&& x.name == n.name
    &&& x.mode == n.mode
    &&& x.uid == n.uid
    &&& x.gid == n.gid
    &&& x.context == n.context
    &&& x.original_nid == n.original_nid
    &&& same_content(x, n)
    &&& x.children.len() == n.children.len()
    &&& forall|i: int|
        0 <= i < n.children.len() ==> same_but_for_numbers(x.children[i], #[trigger] n.children[i])
}

/// What is below two nodes is the same but for the numbers.
pub open spec fn same_below(x: NodeView, n: NodeView) -> bool {
    &&& x.children.len() == n.children.len()
    &&& forall|i: int|
        0 <= i < n.children.len() ==> same_but_for_numbers(x.children[i], #[trigger] n.children[i])
}

proof fn bits_of_modes(mode: u16, p: u16)
    ensures
        ((mode & 0xf000) | (p & 0x0fff)) & 0x0fff == p & 0x0fff,
        ((mode & 0xf000) | (p & 0x0fff)) & 0xf000 == mode & 0xf000,
{
    assert(((mode & 0xf000) | (p & 0x0fff)) & 0x0fff == p & 0x0fff) by (bit_vector);
    assert(((mode & 0xf000) | (p & 0x0fff)) & 0xf000 == mode & 0xf000) by (bit_vector);
}

proof fn metadata_is_as_asked(n: NodeView, m: MetaView)
    ensures
        as_asked(with_metadata(n, m), n, m),
        with_metadata(n, m).mode & 0xf000 == n.mode & 0xf000,
        same_content(with_metadata(n, m), n),
        with_metadata(n, m).children == n.children,
        with_metadata(n, m).name == n.name,
{
    if let Some(p) = m.mode {
        bits_of_modes(n.mode, p);
    }
}

proof fn anonymous_is_the_same(n: NodeView)
    ensures
        same_but_for_numbers(anonymous(n), n),
        same_below(anonymous(n), n),
        anonymous(n).nid == 0,
    decreases n,
{
    let x = anonymous(n);
    assert(x.children == all_anonymous(n.children));
    assert forall|i: int| 0 <= i < n.children.len() implies same_but_for_numbers(
        x.children[i],
        #[trigger] n.children[i],
    ) by {
        anonymous_is_the_same(n.children[i]);
        assert(x.children[i] == anonymous(n.children[i]));
    }
}

proof fn trees_are_like_themselves(n: NodeView)
    ensures
        same_but_for_numbers(n, n),
        same_below(n, n),
    decreases n,
{
    assert forall|i: int| 0 <= i < n.children.len() implies same_but_for_numbers(
        n.children[i],
        #[trigger] n.children[i],
    ) by {
        trees_are_like_themselves(n.children[i]);
    }
}

/// Every part of the path is the name of a directory.
pub open spec fn through_directories(root: NodeView, parts: Seq<Seq<char>>) -> bool {
    forall|k: int|
        1 <= k <= parts.len() ==> (#[trigger] node_at(root, parts.take(k)) matches Some(x)
            && x.is_dir())
}

/// A path leads through directories where its first part names one, and the
/// rest of it leads on from there.
proof fn first_directory(root: NodeView, dirs: Seq<Seq<char>>)
    requires
        distinct(root),
        dirs.len() > 0,
    ensures
        through_directories(root, dirs) <==> (child_dir(root.children, dirs[0]) matches Some(i)
            && through_directories(root.children[i], dirs.drop_first())),
        child_dir(root.children, dirs[0]) matches Some(i) ==> 0 <= i < root.children.len()
            && child_named(root.children, dirs[0]) == Some(i) && distinct(root.children[i]),
{
    let s = root.children;
    child_from_is_first(s, dirs[0], true, 0);
    child_from_is_first(s, dirs[0], false, 0);
    let one = dirs.take(1);
    assert(one[0] == dirs[0]);
    assert(one.drop_first() =~= Seq::empty());
    match child_dir(s, dirs[0]) {
        Some(i) => {
            assert(child_named(s, dirs[0]) == Some(i));
            let c = s[i];
            let rest = dirs.drop_first();
            assert forall|k: int| 1 <= k <= dirs.len() implies #[trigger] node_at(
                root,
                dirs.take(k),
            ) == node_at(c, rest.take(k - 1)) by {
                assert(dirs.take(k)[0] == dirs[0]);
                assert(dirs.take(k).drop_first() =~= rest.take(k - 1));
            }
            assert(rest.take(0) =~= Seq::empty());
            assert(node_at(c, rest.take(0)) == Some(c));
            if through_directories(root, dirs) {
                assert forall|k: int| 1 <= k <= rest.len() implies (#[trigger] node_at(
                    c,
                    rest.take(k),
                ) matches Some(x) && x.is_dir()) by {
                    assert(node_at(root, dirs.take(k + 1)) == node_at(c, rest.take(k)));
                }
            }
            if through_directories(c, rest) {
                assert forall|k: int| 1 <= k <= dirs.len() implies (#[trigger] node_at(
                    root,
                    dirs.take(k),
                ) matches Some(x) && x.is_dir()) by {
                    if k > 1 {
                        assert(node_at(c, rest.take(k - 1)) is Some);
                    }
                }
            }
        },
        None => {
            if through_directories(root, dirs) {
                assert(node_at(root, one) is Some);
                let i = child_named(s, dirs[0])->Some_0;
                assert(node_at(s[i], one.drop_first()) == Some(s[i]));
                assert(node_at(root, one) == Some(s[i]));
                assert(false);
            }
        },
    }
}

/// When a node can be put at a path.
proof fn insertions_succeed(root: NodeView, parts: Seq<Seq<char>>, n: NodeView, m: MetaView, keep: bool)
    requires
        distinct(root),
        parts.len() > 0,
        n.name == parts.last(),
    ensures
        inserted(root, parts.drop_last(), n, m, keep) is Ok <==> (through_directories(
            root,
            parts.drop_last(),
        ) && (node_at(root, parts) matches Some(e) ==> e.is_dir() == n.is_dir())),
    decreases parts.len(),
{
    let dirs = parts.drop_last();
    if dirs.len() == 0 {
        assert(parts.drop_first() =~= Seq::empty());
        child_from_is_first(root.children, n.name, false, 0);
        assert(parts[0] == n.name);
        if let Some(i) = child_named(root.children, parts[0]) {
            assert(node_at(root.children[i], parts.drop_first()) == Some(root.children[i]));
        }
    } else {
        first_directory(root, dirs);
        assert(dirs[0] == parts[0]);
        match child_dir(root.children, dirs[0]) {
            Some(i) => {
                let rest = parts.drop_first();
                assert(rest.drop_last() =~= dirs.drop_first());
                assert(rest.last() == parts.last());
                insertions_succeed(root.children[i], rest, n, m, keep);
            },
            None => {},
        }
    }
}

/// What putting a node at a path comes to.
proof fn insertions_arrive(
    root: NodeView,
    parts: Seq<Seq<char>>,
    n: NodeView,
    m: MetaView,
    keep: bool,
    q: Seq<Seq<char>>,
)
    requires
        distinct(root),
        distinct(n),
    ensures
        with_node(root, parts, n, m, keep) is Ok <==> (parts.len() > 0 && through_directories(
            root,
            parts.drop_last(),
        ) && (node_at(root, parts) matches Some(e) ==> e.is_dir() == n.is_dir())),
        with_node(root, parts, n, m, keep) matches Ok((t, replaced)) ==> {
            &&& replaced == (node_at(root, parts) is Some)
            &&& !on_the_way(parts, q) ==> node_at(t, q) == node_at(root, q)
            &&& node_at(t, parts) matches Some(x) && arrived(
                x,
                node_at(root, parts),
                n,
                parts.last(),
                m,
                keep,
            )
        },
{
    insertion_fills_the_path(root, parts, n, m, keep, q);
    if parts.len() > 0 {
        let named = with_metadata(NodeView { name: parts.last(), ..n }, m);
        metadata_is_as_asked(NodeView { name: parts.last(), ..n }, m);
        insertions_succeed(root, parts, named, m, keep);
        anonymous_is_the_same(named);
        trees_are_like_themselves(named);
    }
}

/// The node `x` is `n`, arrived under a name where `existing` was: it has the
/// content of `n` and what is below `n`. The metadata is what is asked for, and
/// for the rest that of what was there, or its own where nothing was.
pub open spec fn arrived(
    x: NodeView,
    existing: Option<NodeView>,
    n: NodeView,
    name: Seq<char>,
    m: MetaView,
    keep: bool,
) -> bool {
    &&& x.name == name
    &&& same_content(x, n)
    &&& same_below(x, n)
    &&& match existing {
        Some(e) => {
            &&& as_asked(x, e, m)
            &&& m.mode is Some ==> x.mode & 0xf000 == n.mode & 0xf000
            &&& x.nid == e.nid
            &&& x.parent_nid == e.parent_nid
            &&& x.original_nid == if n.original_nid == 0 {
                e.original_nid
            } else {
                n.original_nid
            }
            &&& x.modified
            &&& x.content_changed
            &&& x.context_explicit == (m.context is Some)
        },
        None => {
            &&& as_asked(x, n, m)
            &&& x.mode & 0xf000 == n.mode & 0xf000
            &&& x.original_nid == n.original_nid
            &&& x.content_changed == n.content_changed
            &&& x.modified == (n.modified || m.mode is Some || m.uid is Some || m.gid is Some
                || m.context is Some)
            &&& x.context_explicit == (n.context_explicit || m.context is Some)
            &&& if keep {
                x.nid == n.nid && x.parent_nid == n.parent_nid
            } else {
                x.nid == 0 && x.parent_nid == 0
            }
        },
    }
}

/// An addition: it succeeds exactly where the path leads through directories and
/// does not put a directory in the place of a file, or a file in that of a
/// directory. The node is at the path afterwards, with the metadata asked for;
/// what is not asked for is that of the node that was there, or its own where
/// nothing was. Every path that does not lead there or through it leads to what
/// it led to.
pub proof fn additions_arrive(
    root: NodeView,
    source: Seq<char>,
    destination: Seq<char>,
    m: MetaView,
    n: NodeView,
    q: Seq<Seq<char>>,
)
    requires
        distinct(root),
        distinct(n),
    ensures
        ({
            let parts = parts_of(destination);
            let r = applied(
                root,
                (ActionView::Add { source, destination, metadata: m }),
                Some(n),
            );
            &&& r is Ok <==> (parts.len() > 0 && through_directories(root, parts.drop_last()) && (
            node_at(root, parts) matches Some(e) ==> e.is_dir() == n.is_dir()))
            &&& r matches Ok((t, replaced)) ==> {
                &&& replaced == (node_at(root, parts) is Some)
                &&& !on_the_way(parts, q) ==> node_at(t, q) == node_at(root, q)
                &&& node_at(t, parts) matches Some(x) && arrived(
                    x,
                    node_at(root, parts),
                    n,
                    parts.last(),
                    m,
                    false,
                )
            }
        }),
{
    insertions_arrive(root, parts_of(destination), n, m, false, q);
}

/// A copy: what is at the source is at the destination too, with the metadata
/// asked for; what is not asked for is that of the node that was there, or that
/// of the source where nothing was. Every path that does not lead there or
/// through it leads to what it led to.
pub proof fn copies_arrive(
    root: NodeView,
    source: Seq<char>,
    destination: Seq<char>,
    m: MetaView,
    q: Seq<Seq<char>>,
)
    requires
        distinct(root),
    ensures
        ({
            let parts = parts_of(destination);
            let from = node_at(root, parts_of(source));
            let r = applied(
                root,
                (ActionView::Copy { source, destination, metadata: m }),
                None,
            );
            &&& r is Ok <==> (from is Some && parts.len() > 0 && through_directories(
                root,
                parts.drop_last(),
            ) && (node_at(root, parts) matches Some(e) ==> e.is_dir() == from->Some_0.is_dir()))
            &&& r matches Ok((t, changed)) ==> {
                &&& changed
                &&& !on_the_way(parts, q) ==> node_at(t, q) == node_at(root, q)
                &&& node_at(t, parts) matches Some(x) && arrived(
                    x,
                    node_at(root, parts),
                    from->Some_0,
                    parts.last(),
                    m,
                    false,
                )
            }
        }),
{
    subtree_is_distinct(root, parts_of(source));
    if let Some(n) = node_at(root, parts_of(source)) {
        insertions_arrive(root, parts_of(destination), n, m, false, q);
    }
}

/// When a path can be removed.
proof fn removals_succeed(root: NodeView, parts: Seq<Seq<char>>, whole: Seq<Seq<char>>)
    requires
        distinct(root),
        parts.len() > 0,
    ensures
        removed(root, parts.drop_last(), parts.last(), whole) is Ok <==> (
        through_directories(root, parts.drop_last()) && node_at(root, parts) is Some),
    decreases parts.len(),
{
    let dirs = parts.drop_last();
    if dirs.len() == 0 {
        assert(parts.drop_first() =~= Seq::empty());
        assert(parts[0] == parts.last());
        if let Some(i) = child_named(root.children, parts[0]) {
            assert(node_at(root.children[i], parts.drop_first()) == Some(root.children[i]));
        }
    } else {
        first_directory(root, dirs);
        assert(dirs[0] == parts[0]);
        match child_dir(root.children, dirs[0]) {
            Some(i) => {
                let rest = parts.drop_first();
                assert(rest.drop_last() =~= dirs.drop_first());
                assert(rest.last() == parts.last());
                removals_succeed(root.children[i], rest, whole);
            },
            None => {},
        }
    }
}

/// A removal: it succeeds exactly where something other than the root is at the
/// path, the path leads through directories, and a directory that holds something
/// goes only where all that it holds may go too. Nothing is at the path
/// afterwards, and every path that does not lead there or through it leads to
/// what it led to.
pub proof fn removals_empty_the_path(
    root: NodeView,
    path: Seq<char>,
    recursive: bool,
    q: Seq<Seq<char>>,
)
    requires
        distinct(root),
    ensures
        ({
            let parts = parts_of(path);
            let r = applied(root, (ActionView::Remove { path, recursive }), None);
            &&& r is Ok <==> (parts.len() > 0 && through_directories(root, parts.drop_last()) && (
            node_at(root, parts) matches Some(x) && (recursive || !x.is_dir() || x.children.len()
                == 0)))
            &&& r matches Ok((t, changed)) ==> {
                &&& changed
                &&& node_at(t, parts) is None
                &&& !on_the_way(parts, q) ==> node_at(t, q) == node_at(root, q)
            }
        }),
{
    removal_empties_the_path(root, parts_of(path), q);
    if parts_of(path).len() > 0 {
        removals_succeed(root, parts_of(path), parts_of(path));
    }
}

/// A move: nothing is at the source afterwards, and what was there is at the
/// destination, with the metadata asked for; what is not asked for is that of
/// the node that was there, or its own where nothing was.
pub proof fn moves_arrive(
    root: NodeView,
    source: Seq<char>,
    destination: Seq<char>,
    m: MetaView,
    q: Seq<Seq<char>>,
)
    requires
        distinct(root),
        !on_the_way(parts_of(source), parts_of(destination)),
        !on_the_way(parts_of(destination), parts_of(source)),
    ensures
        ({
            let parts = parts_of(destination);
            let from = node_at(root, parts_of(source));
            let r = applied(
                root,
                (ActionView::Move { source, destination, metadata: m }),
                None,
            );
            r matches Ok((t, changed)) ==> {
                &&& changed
                &&& from is Some
                &&& node_at(t, parts_of(source)) is None
                &&& !on_the_way(parts, q) && !on_the_way(parts_of(source), q) ==> node_at(t, q)
                    == node_at(root, q)
                &&& node_at(t, parts) matches Some(x) && arrived(
                    x,
                    node_at(root, parts),
                    from->Some_0,
                    parts.last(),
                    m,
                    true,
                )
            }
        }),
{
    let from = parts_of(source);
    let to = parts_of(destination);
    removal_empties_the_path(root, from, to);
    removal_empties_the_path(root, from, q);
    if let Ok((rest, n)) = without(root, from) {
        insertions_arrive(rest, to, n, m, true, q);
        insertions_arrive(rest, to, n, m, true, from);
    }
}

/// Actions on metadata: they succeed exactly where something is at the path. The
/// node there has the metadata asked for, and everything else of it stays; every
/// path that does not lead there or through it leads to what it led to.
pub proof fn metadata_is_set(
    root: NodeView,
    path: Seq<char>,
    action: ActionView,
    mode: u16,
    uid: u32,
    gid: u32,
    context: Seq<char>,
    q: Seq<Seq<char>>,
)
    requires
        distinct(root),
        action == (ActionView::SetMode { path, mode }) || action == (ActionView::SetOwner {
            path,
            uid,
            gid,
        }) || action == (ActionView::SetContext { path, context }),
    ensures
        ({
            let parts = parts_of(path);
            let r = applied(root, action, None);
            &&& r is Ok <==> node_at(root, parts) is Some
            &&& r matches Ok((t, changed)) ==> {
                let n = node_at(root, parts)->Some_0;
                &&& !changed
                &&& !on_the_way(parts, q) ==> node_at(t, q) == node_at(root, q)
                &&& node_at(t, parts) matches Some(x) && {
                    &&& x.modified
                    &&& x == NodeView {
                        mode: x.mode,
                        uid: x.uid,
                        gid: x.gid,
                        context: x.context,
                        context_explicit: x.context_explicit,
                        modified: true,
                        ..n
                    }
                    &&& x.mode & 0xf000 == n.mode & 0xf000
                    &&& if action is SetMode {
                        x.mode & 0x0fff == mode & 0x0fff
                    } else {
                        x.mode == n.mode
                    }
                    &&& if action is SetOwner {
                        x.uid == uid && x.gid == gid
                    } else {
                        x.uid == n.uid && x.gid == n.gid
                    }
                    &&& if action is SetContext {
                        x.context == Some(context) && x.context_explicit
                    } else {
                        x.context == n.context && x.context_explicit == n.context_explicit
                    }
                }
            }
        }),
{
    let none = no_metadata();
    let m = match action {
        ActionView::SetMode { .. } => MetaView { mode: Some(mode), ..none },
        ActionView::SetOwner { .. } => MetaView { uid: Some(uid), gid: Some(gid), ..none },
        _ => MetaView { context: Some(context), ..none },
    };
    metadata_changes_one_node(root, parts_of(path), m, q);
    if let Some(n) = node_at(root, parts_of(path)) {
        metadata_is_as_asked(n, m);
    }
}

} // verus!
