//! What edits do to the paths of a tree.
use super::edit::{
    anonymous, applied, child_dir, child_from_is_first, child_named, inserted, node_at, removed,
    replacing, retouched, with_metadata, with_node, without, ActionView, MetaView,
};
use super::node::NodeView;
use crate::text::parts_of;
use vstd::prelude::*;

verus! {

/// No two children of a directory of the tree have the same name.
pub open spec fn distinct(n: NodeView) -> bool
    decreases n,
{
    &&& siblings_differ(n.children)
    &&& forall|i: int| 0 <= i < n.children.len() ==> distinct(#[trigger] n.children[i])
}

/// No two of the nodes have the same name.
pub open spec fn siblings_differ(s: Seq<NodeView>) -> bool {
    forall|i: int, j: int|
        0 <= i < j < s.len() ==> (#[trigger] s[i]).name != (#[trigger] s[j]).name
}

/// The path `a` leads to or through `b`, or the other way round.
pub open spec fn on_the_way(a: Seq<Seq<char>>, b: Seq<Seq<char>>) -> bool
    decreases a.len(),
{
    a.len() == 0 || b.len() == 0 || (a[0] == b[0] && on_the_way(a.drop_first(), b.drop_first()))
}

/// With distinct names, what is found is the child with the name.
proof fn lookup(s: Seq<NodeView>, name: Seq<char>)
    requires
        siblings_differ(s),
    ensures
        match child_dir(s, name) {
            Some(i) => 0 <= i < s.len() && s[i].name == name && s[i].is_dir() && child_named(
                s,
                name,
            ) == Some(i),
            None => true,
        },
        match child_named(s, name) {
            Some(i) => 0 <= i < s.len() && s[i].name == name,
            None => forall|j: int| 0 <= j < s.len() ==> (#[trigger] s[j]).name != name,
        },
{
    child_from_is_first(s, name, true, 0);
    child_from_is_first(s, name, false, 0);
}

/// Among distinct names, the one at an index is found there.
proof fn found_at(s: Seq<NodeView>, i: int)
    requires
        siblings_differ(s),
        0 <= i < s.len(),
    ensures
        child_named(s, s[i].name) == Some(i),
{
    child_from_is_first(s, s[i].name, false, 0);
}

/// Replacing a child by one of the same name keeps the names distinct.
proof fn update_keeps_distinct(n: NodeView, i: int, c: NodeView)
    requires
        distinct(n),
        0 <= i < n.children.len(),
        c.name == n.children[i].name,
        distinct(c),
    ensures
        distinct(NodeView { children: n.children.update(i, c), ..n }),
        siblings_differ(n.children.update(i, c)),
{
    let s = n.children.update(i, c);
    assert forall|a: int, b: int| 0 <= a < b < s.len() implies (#[trigger] s[a]).name != (
    #[trigger] s[b]).name by {
        assert(n.children[a].name != n.children[b].name);
    }
}

/// A path that starts elsewhere does not see the change of one child.
proof fn other_child(n: NodeView, i: int, c: NodeView, q: Seq<Seq<char>>)
    requires
        distinct(n),
        0 <= i < n.children.len(),
        c.name == n.children[i].name,
        q.len() > 0,
        q[0] != c.name,
    ensures
        node_at(NodeView { children: n.children.update(i, c), ..n }, q) == node_at(n, q),
{
    let s = n.children;
    let t = s.update(i, c);
    child_from_is_first(s, q[0], false, 0);
    child_from_is_first(t, q[0], false, 0);
    match child_named(s, q[0]) {
        Some(k) => {
            assert(k != i);
            assert(t[k] == s[k]);
            match child_named(t, q[0]) {
                Some(l) => {
                    assert(l != i);
                    assert(s[l] == t[l]);
                    assert(k == l);
                },
                None => {},
            }
        },
        None => {
            match child_named(t, q[0]) {
                Some(l) => {
                    assert(l != i);
                    assert(s[l] == t[l]);
                },
                None => {},
            }
        },
    }
}

/// The numbers play no part in names.
proof fn anonymous_is_distinct(n: NodeView)
    requires
        distinct(n),
    ensures
        distinct(anonymous(n)),
        anonymous(n).name == n.name,
    decreases n,
{
    let s = anonymous(n).children;
    assert forall|i: int| 0 <= i < s.len() implies distinct(#[trigger] s[i]) && s[i].name
        == n.children[i].name by {
        anonymous_is_distinct(n.children[i]);
    }
    assert forall|a: int, b: int| 0 <= a < b < s.len() implies (#[trigger] s[a]).name != (
    #[trigger] s[b]).name by {
        assert(n.children[a].name != n.children[b].name);
    }
}

/// What is at a path of a tree with distinct names has distinct names too.
pub proof fn subtree_is_distinct(n: NodeView, parts: Seq<Seq<char>>)
    requires
        distinct(n),
    ensures
        node_at(n, parts) matches Some(x) ==> distinct(x),
    decreases parts.len(),
{
    if parts.len() > 0 {
        lookup(n.children, parts[0]);
        match child_named(n.children, parts[0]) {
            Some(i) => {
                subtree_is_distinct(n.children[i], parts.drop_first());
            },
            None => {},
        }
    }
}

/// A change of metadata: the node at the path has it afterwards, every path
/// that does not lead there or through it leads to what it led to, and names
/// stay distinct.
pub proof fn metadata_changes_one_node(
    n: NodeView,
    parts: Seq<Seq<char>>,
    m: MetaView,
    q: Seq<Seq<char>>,
)
    requires
        distinct(n),
    ensures
        (retouched(n, parts, m) is Some) == (node_at(n, parts) is Some),
        retouched(n, parts, m) matches Some(t) ==> {
            &&& t.name == n.name
            &&& distinct(t)
            &&& node_at(t, parts) == Some(with_metadata(node_at(n, parts)->Some_0, m))
            &&& !on_the_way(parts, q) ==> node_at(t, q) == node_at(n, q)
        },
    decreases parts.len(),
{
    if parts.len() > 0 {
        lookup(n.children, parts[0]);
        match child_named(n.children, parts[0]) {
            Some(i) => {
                let rest = if q.len() > 0 {
                    q.drop_first()
                } else {
                    q
                };
                metadata_changes_one_node(n.children[i], parts.drop_first(), m, rest);
                match retouched(n.children[i], parts.drop_first(), m) {
                    Some(c) => {
                        update_keeps_distinct(n, i, c);
                        let t = NodeView { children: n.children.update(i, c), ..n };
                        found_at(t.children, i);
                        if q.len() > 0 {
                            if q[0] != parts[0] {
                                other_child(n, i, c, q);
                            }
                        }
                    },
                    None => {},
                }
            },
            None => {},
        }
    }
}

/// Removing a path: the node that was there comes out, nothing is there
/// afterwards, every path that does not lead there or through it leads to
/// what it led to, and names stay distinct.
pub proof fn removal_empties_the_path(n: NodeView, parts: Seq<Seq<char>>, q: Seq<Seq<char>>)
    requires
        distinct(n),
    ensures
        without(n, parts) matches Ok((t, x)) ==> {
            &&& node_at(n, parts) == Some(x)
            &&& node_at(t, parts) is None
            &&& distinct(t)
            &&& distinct(x)
            &&& x.name == parts.last()
            &&& !on_the_way(parts, q) ==> node_at(t, q) == node_at(n, q)
        },
{
    if parts.len() > 0 {
        removed_from(n, parts, parts, q);
    }
}

proof fn removed_from(
    n: NodeView,
    parts: Seq<Seq<char>>,
    whole: Seq<Seq<char>>,
    q: Seq<Seq<char>>,
)
    requires
        distinct(n),
        parts.len() > 0,
    ensures
        removed(n, parts.drop_last(), parts.last(), whole) matches Ok((t, x)) ==> {
            &&& node_at(n, parts) == Some(x)
            &&& node_at(t, parts) is None
            &&& distinct(t)
            &&& distinct(x)
            &&& t.name == n.name
            &&& x.name == parts.last()
            &&& !on_the_way(parts, q) ==> node_at(t, q) == node_at(n, q)
        },
    decreases parts.len(),
{
    let dirs = parts.drop_last();
    let rest = if q.len() > 0 {
        q.drop_first()
    } else {
        q
    };
    lookup(n.children, parts[0]);
    if dirs.len() == 0 {
        assert(parts.drop_first().len() == 0);
        assert(parts.last() == parts[0]);
        assert(on_the_way(parts.drop_first(), rest));
        match child_named(n.children, parts[0]) {
            Some(i) => {
                let s = n.children;
                let t = s.remove(i);
                assert forall|a: int, b: int| 0 <= a < b < t.len() implies (#[trigger] t[a]).name
                    != (#[trigger] t[b]).name by {
                    let a0 = if a < i {
                        a
                    } else {
                        a + 1
                    };
                    let b0 = if b < i {
                        b
                    } else {
                        b + 1
                    };
                    assert(s[a0].name != s[b0].name);
                }
                assert forall|a: int| 0 <= a < t.len() implies distinct(#[trigger] t[a])
                    && t[a].name != parts[0] by {
                    let a0 = if a < i {
                        a
                    } else {
                        a + 1
                    };
                    assert(distinct(s[a0]));
                    assert(s[a0].name != s[i].name);
                }
                lookup(t, parts[0]);
                assert(node_at(s[i], parts.drop_first()) == Some(s[i]));
                if q.len() > 0 && q[0] != parts[0] {
                    lookup(s, q[0]);
                    lookup(t, q[0]);
                    match child_named(s, q[0]) {
                        Some(k) => {
                            let k0 = if k < i {
                                k
                            } else {
                                k - 1
                            };
                            assert(t[k0] == s[k]);
                            found_at(t, k0);
                        },
                        None => {
                            match child_named(t, q[0]) {
                                Some(l) => {
                                    let l0 = if l < i {
                                        l
                                    } else {
                                        l + 1
                                    };
                                    assert(s[l0] == t[l]);
                                },
                                None => {},
                            }
                        },
                    }
                }
            },
            None => {},
        }
    } else {
        assert(dirs[0] == parts[0]);
        match child_dir(n.children, dirs[0]) {
            Some(i) => {
                assert(dirs.drop_first() =~= parts.drop_first().drop_last());
                assert(parts.drop_first().last() == parts.last());
                removed_from(n.children[i], parts.drop_first(), whole, rest);
                match removed(n.children[i], dirs.drop_first(), parts.last(), whole) {
                    Ok((c, x)) => {
                        update_keeps_distinct(n, i, c);
                        let t = NodeView { children: n.children.update(i, c), ..n };
                        found_at(t.children, i);
                        if q.len() > 0 && q[0] != parts[0] {
                            other_child(n, i, c, q);
                        }
                    },
                    Err(_) => {},
                }
            },
            None => {},
        }
    }
}

/// What comes to stand at a path where `n` is put.
pub open spec fn arrival(
    root: NodeView,
    parts: Seq<Seq<char>>,
    n: NodeView,
    m: MetaView,
    keep: bool,
) -> NodeView {
    let named = with_metadata(NodeView { name: parts.last(), ..n }, m);
    match node_at(root, parts) {
        Some(existing) => replacing(existing, named, m),
        None => if keep {
            named
        } else {
            anonymous(named)
        },
    }
}

/// Putting a node at a path: it is there afterwards with the metadata asked
/// for, in the place of what was there, if anything; every path that does
/// not lead there or through it leads to what it led to, and names stay
/// distinct.
pub proof fn insertion_fills_the_path(
    root: NodeView,
    parts: Seq<Seq<char>>,
    n: NodeView,
    m: MetaView,
    keep: bool,
    q: Seq<Seq<char>>,
)
    requires
        distinct(root),
        distinct(n),
    ensures
        with_node(root, parts, n, m, keep) matches Ok((t, replaced)) ==> {
            &&& node_at(t, parts) == Some(arrival(root, parts, n, m, keep))
            &&& replaced == (node_at(root, parts) is Some)
            &&& distinct(t)
            &&& !on_the_way(parts, q) ==> node_at(t, q) == node_at(root, q)
        },
{
    if parts.len() > 0 {
        let named = with_metadata(NodeView { name: parts.last(), ..n }, m);
        assert(distinct(named)) by {
            assert(named.children == n.children);
            assert(siblings_differ(named.children));
        }
        inserted_into(root, parts, named, m, keep, q);
    }
}

proof fn inserted_into(
    root: NodeView,
    parts: Seq<Seq<char>>,
    n: NodeView,
    m: MetaView,
    keep: bool,
    q: Seq<Seq<char>>,
)
    requires
        distinct(root),
        distinct(n),
        parts.len() > 0,
        n.name == parts.last(),
    ensures
        inserted(root, parts.drop_last(), n, m, keep) matches Ok((t, replaced)) ==> {
            &&& node_at(t, parts) == Some(
                match node_at(root, parts) {
                    Some(existing) => replacing(existing, n, m),
                    None => if keep {
                        n
                    } else {
                        anonymous(n)
                    },
                },
            )
            &&& replaced == (node_at(root, parts) is Some)
            &&& distinct(t)
            &&& t.name == root.name
            &&& !on_the_way(parts, q) ==> node_at(t, q) == node_at(root, q)
        },
    decreases parts.len(),
{
    let dirs = parts.drop_last();
    let rest = if q.len() > 0 {
        q.drop_first()
    } else {
        q
    };
    lookup(root.children, parts[0]);
    if dirs.len() == 0 {
        assert(parts.drop_first().len() == 0);
        assert(parts.last() == parts[0]);
        assert(on_the_way(parts.drop_first(), rest));
        let s = root.children;
        match child_named(s, parts[0]) {
            Some(i) => {
                let c = replacing(s[i], n, m);
                assert(node_at(s[i], parts.drop_first()) == Some(s[i]));
                assert(node_at(c, parts.drop_first()) == Some(c));
                assert(distinct(c)) by {
                    assert(c.children == n.children);
                    assert(siblings_differ(c.children));
                }
                update_keeps_distinct(root, i, c);
                found_at(s.update(i, c), i);
                if q.len() > 0 && q[0] != parts[0] {
                    other_child(root, i, c, q);
                }
            },
            None => {
                anonymous_is_distinct(n);
                let c = if keep {
                    n
                } else {
                    anonymous(n)
                };
                assert(node_at(c, parts.drop_first()) == Some(c));
                let t = s.push(c);
                assert forall|a: int, b: int| 0 <= a < b < t.len() implies (#[trigger] t[a]).name
                    != (#[trigger] t[b]).name by {
                    if b < s.len() {
                        assert(s[a].name != s[b].name);
                    } else {
                        assert(s[a].name != parts[0]);
                    }
                }
                assert forall|a: int| 0 <= a < t.len() implies distinct(#[trigger] t[a]) by {
                    if a < s.len() {
                        assert(distinct(s[a]));
                    }
                }
                found_at(t, s.len() as int);
                if q.len() > 0 && q[0] != parts[0] {
                    lookup(s, q[0]);
                    lookup(t, q[0]);
                    match child_named(s, q[0]) {
                        Some(k) => {
                            assert(t[k] == s[k]);
                            found_at(t, k);
                        },
                        None => {
                            match child_named(t, q[0]) {
                                Some(l) => {
                                    if l < s.len() {
                                        assert(s[l] == t[l]);
                                    }
                                },
                                None => {},
                            }
                        },
                    }
                }
            },
        }
    } else {
        assert(dirs[0] == parts[0]);
        match child_dir(root.children, dirs[0]) {
            Some(i) => {
                assert(dirs.drop_first() =~= parts.drop_first().drop_last());
                assert(parts.drop_first().last() == parts.last());
                inserted_into(root.children[i], parts.drop_first(), n, m, keep, rest);
                match inserted(root.children[i], dirs.drop_first(), n, m, keep) {
                    Ok((c, _)) => {
                        update_keeps_distinct(root, i, c);
                        let t = NodeView { children: root.children.update(i, c), ..root };
                        found_at(t.children, i);
                        if q.len() > 0 && q[0] != parts[0] {
                            other_child(root, i, c, q);
                        }
                    },
                    Err(_) => {},
                }
            },
            None => {},
        }
    }
}

/// Every action keeps the names of siblings distinct.
pub proof fn actions_keep_names_distinct(
    root: NodeView,
    action: ActionView,
    added: Option<NodeView>,
)
    requires
        distinct(root),
        added matches Some(n) ==> distinct(n),
    ensures
        applied(root, action, added) matches Ok((t, _)) ==> distinct(t),
{
    let none = Seq::<Seq<char>>::empty();
    match action {
        ActionView::Add { destination, metadata, .. } => {
            match added {
                Some(n) => {
                    insertion_fills_the_path(
                        root,
                        parts_of(destination),
                        n,
                        metadata,
                        false,
                        none,
                    );
                },
                None => {},
            }
        },
        ActionView::Copy { source, destination, metadata } => {
            subtree_is_distinct(root, parts_of(source));
            match node_at(root, parts_of(source)) {
                Some(n) => {
                    insertion_fills_the_path(
                        root,
                        parts_of(destination),
                        n,
                        metadata,
                        false,
                        none,
                    );
                },
                None => {},
            }
        },
        ActionView::Move { source, destination, metadata } => {
            removal_empties_the_path(root, parts_of(source), none);
            match without(root, parts_of(source)) {
                Ok((rest, n)) => {
                    insertion_fills_the_path(
                        rest,
                        parts_of(destination),
                        n,
                        metadata,
                        true,
                        none,
                    );
                },
                Err(_) => {},
            }
        },
        ActionView::Remove { path, .. } => {
            removal_empties_the_path(root, parts_of(path), none);
        },
        ActionView::SetContext { path, context } => {
            let m = MetaView { mode: None, uid: None, gid: None, context: Some(context) };
            metadata_changes_one_node(root, parts_of(path), m, none);
        },
        ActionView::SetMode { path, mode } => {
            let m = MetaView { mode: Some(mode), uid: None, gid: None, context: None };
            metadata_changes_one_node(root, parts_of(path), m, none);
        },
        ActionView::SetOwner { path, uid, gid } => {
            let m = MetaView { mode: None, uid: Some(uid), gid: Some(gid), context: None };
            metadata_changes_one_node(root, parts_of(path), m, none);
        },
    }
}

/// A copy has the content of what it was copied from: after a copy to a path
/// that held nothing, the node there differs from the source only in its
/// name, in its numbers and in the metadata asked for.
pub proof fn copies_have_the_content(
    root: NodeView,
    source: Seq<char>,
    destination: Seq<char>,
    m: MetaView,
)
    requires
        distinct(root),
        node_at(root, parts_of(destination)) is None,
    ensures
        applied(root, (ActionView::Copy { source, destination, metadata: m }), None) matches Ok(
            (t, _),
        ) ==> {
            let x = node_at(root, parts_of(source))->Some_0;
            node_at(t, parts_of(destination)) == Some(
                anonymous(with_metadata(NodeView { name: parts_of(destination).last(), ..x }, m)),
            )
        },
{
    subtree_is_distinct(root, parts_of(source));
    match node_at(root, parts_of(source)) {
        Some(n) => {
            insertion_fills_the_path(root, parts_of(destination), n, m, false, Seq::empty());
        },
        None => {},
    }
}

/// A move takes the node away from where it was and puts it, with its
/// numbers, where nothing was.
pub proof fn moves_keep_the_identity(
    root: NodeView,
    source: Seq<char>,
    destination: Seq<char>,
    m: MetaView,
)
    requires
        distinct(root),
        node_at(root, parts_of(destination)) is None,
        !on_the_way(parts_of(destination), parts_of(source)),
        !on_the_way(parts_of(source), parts_of(destination)),
    ensures
        applied(root, (ActionView::Move { source, destination, metadata: m }), None) matches Ok(
            (t, _),
        ) ==> {
            let x = node_at(root, parts_of(source))->Some_0;
            &&& node_at(t, parts_of(source)) is None
            &&& node_at(t, parts_of(destination)) == Some(
                with_metadata(NodeView { name: parts_of(destination).last(), ..x }, m),
            )
        },
{
    removal_empties_the_path(root, parts_of(source), parts_of(destination));
    match without(root, parts_of(source)) {
        Ok((rest, n)) => {
            insertion_fills_the_path(
                rest,
                parts_of(destination),
                n,
                m,
                true,
                parts_of(source),
            );
        },
        Err(_) => {},
    }
}

} // verus!
