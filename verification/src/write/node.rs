//! The tree of files that an image is edited as.
use crate::buf::copy_range;
use crate::math::ceil_div;
use crate::text::{
    bytes_less_is_total, bytes_less_is_transitive, copy_opt, is_less, opt_text, same,
    sort_strings, sorted_texts, text_less, texts,
};
use vstd::prelude::*;
use vstd::utf8::encode_utf8;

verus! {

/// Where the content of a node is.
pub enum NodePayload {
    /// In the image that the tree was read from, or nowhere.
    Empty,
    /// The bytes of a directory.
    InlineDir(Vec<u8>),
    /// Content supplied from outside the image.
    Memory(Vec<u8>),
}

/// The mathematical counterpart of [`NodePayload`].
#[verifier::ext_equal]
pub enum PayloadView {
    Empty,
    InlineDir(Seq<u8>),
    Memory(Seq<u8>),
}

impl View for NodePayload {
    type V = PayloadView;

    open spec fn view(&self) -> PayloadView {
        match self {
            NodePayload::Empty => PayloadView::Empty,
            NodePayload::InlineDir(d) => PayloadView::InlineDir(d@),
            NodePayload::Memory(d) => PayloadView::Memory(d@),
        }
    }
}

/// A file or directory, with everything below it.
pub struct Node {
    pub nid: u64,
    pub original_nid: u64,
    pub parent_nid: u64,
    pub name: String,
    pub mode: u16,
    pub uid: u32,
    pub gid: u32,
    pub payload: NodePayload,
    pub data_size: u64,
    pub children: Vec<Node>,
    pub layout: u16,
    pub raw_block: u32,
    /// Set when the node was changed in any way.
    pub modified: bool,
    /// Set when the content was replaced, as opposed to changes of metadata.
    pub content_changed: bool,
    /// SELinux context.
    pub context: Option<String>,
    /// Whether `context` was asked for, as opposed to preserved from the
    /// source image.
    pub context_explicit: bool,
    /// Mapped ranges of an ext4 file: logical block, physical block, length.
    pub extents: Vec<(u64, u64, u64)>,
    /// Logical clusters of a file that is written compressed; 0 selects the
    /// plain layout. Directories are always 0.
    pub erofs_compact_clusters: u64,
}

/// The mathematical counterpart of [`Node`].
#[verifier::ext_equal]
pub struct NodeView {
    pub nid: u64,
    pub original_nid: u64,
    pub parent_nid: u64,
    pub name: Seq<char>,
    pub mode: u16,
    pub uid: u32,
    pub gid: u32,
    pub payload: PayloadView,
    pub data_size: u64,
    pub children: Seq<NodeView>,
    pub layout: u16,
    pub raw_block: u32,
    pub modified: bool,
    pub content_changed: bool,
    pub context: Option<Seq<char>>,
    pub context_explicit: bool,
    pub extents: Seq<(u64, u64, u64)>,
    pub erofs_compact_clusters: u64,
}

/// The views of a sequence of nodes.
pub open spec fn node_views(s: Seq<Node>) -> Seq<NodeView>
    decreases s,
{
    Seq::new(
        s.len(),
        |i: int|
            if 0 <= i < s.len() {
                s[i].view()
            } else {
                arbitrary()
            },
    )
}

impl View for Node {
    type V = NodeView;

    open spec fn view(&self) -> NodeView
        decreases self,
    {
        NodeView {
            nid: self.nid,
            original_nid: self.original_nid,
            parent_nid: self.parent_nid,
            name: self.name@,
            mode: self.mode,
            uid: self.uid,
            gid: self.gid,
            payload: self.payload@,
            data_size: self.data_size,
            children: node_views(self.children@),
            layout: self.layout,
            raw_block: self.raw_block,
            modified: self.modified,
            content_changed: self.content_changed,
            context: opt_text(self.context),
            context_explicit: self.context_explicit,
            extents: self.extents@,
            erofs_compact_clusters: self.erofs_compact_clusters,
        }
    }
}

/// Replacing a node replaces its view.
pub proof fn node_views_update(s: Seq<Node>, i: int, n: Node)
    requires
        0 <= i < s.len(),
    ensures
        node_views(s.update(i, n)) == node_views(s).update(i, n@),
        node_views(s).len() == s.len(),
        forall|k: int| 0 <= k < s.len() ==> #[trigger] node_views(s)[k] == s[k]@,
{
    assert(node_views(s.update(i, n)) =~= node_views(s).update(i, n@));
}

/// The children of a node and their views.
pub proof fn children_seen(n: Node)
    ensures
        n@.children == node_views(n.children@),
        n@.children.len() == n.children@.len(),
        forall|k: int| 0 <= k < n.children@.len() ==> #[trigger] n@.children[k] == n.children@[k]@,
{
    let v = node_views(n.children@);
    assert(n@.children == v);
    assert(v.len() == n.children@.len());
    assert(forall|k: int| 0 <= k < n.children@.len() ==> #[trigger] v[k] == n.children@[k]@);
}

/// The tree with the parent numbers of its nodes set.
pub open spec fn with_parents(n: NodeView, parent: u64) -> NodeView
    decreases n,
{
    NodeView { parent_nid: parent, children: all_with_parents(n.children, n.nid), ..n }
}

/// The nodes with the parent numbers set.
pub open spec fn all_with_parents(s: Seq<NodeView>, parent: u64) -> Seq<NodeView>
    decreases s,
{
    Seq::new(
        s.len(),
        |i: int|
            if 0 <= i < s.len() {
                with_parents(s[i], parent)
            } else {
                arbitrary()
            },
    )
}

/// Gives every node of the tree the number of its parent.
pub fn set_parents(node: &mut Node, parent_nid: u64)
    ensures
        final(node)@ == with_parents(old(node)@, parent_nid),
    decreases *old(node),
{
    node.parent_nid = parent_nid;
    let nid = node.nid;
    let n = node.children.len();
    let mut i: usize = 0;
    let ghost first = node.children@;
    while i < n
        invariant
            i <= n == first.len() == node.children@.len(),
            first == old(node).children@,
            forall|k: int| i <= k < n ==> node.children@[k] == first[k],
            forall|k: int| 0 <= k < i ==> (#[trigger] node.children@[k])@ == with_parents(first[k]@, nid),
            *node == (Node { parent_nid, children: node.children, ..*old(node) }),
        decreases n - i,
    {
        set_parents(&mut node.children[i], nid);
        i += 1;
    }
    proof {
        assert(node_views(node.children@) =~= all_with_parents(node_views(first), nid));
    }
}

impl NodeView {
    /// Whether the node is a directory.
    pub open spec fn is_dir(self) -> bool {
        self.mode & 0xf000 == 0x4000
    }

    /// Whether the node is a regular file.
    pub open spec fn is_regular(self) -> bool {
        self.mode & 0xf000 == 0x8000
    }

    /// The content that the node itself holds.
    pub open spec fn data(self) -> Seq<u8> {
        match self.payload {
            PayloadView::Empty => Seq::empty(),
            PayloadView::InlineDir(d) => d,
            PayloadView::Memory(d) => d,
        }
    }

    /// The size of the content.
    pub open spec fn size(self) -> int {
        match self.payload {
            PayloadView::Empty => self.data_size as int,
            PayloadView::InlineDir(d) => d.len() as int,
            PayloadView::Memory(d) => d.len() as int,
        }
    }

    /// Whether the node has a SELinux context to store.
    pub open spec fn labelled(self) -> bool {
        self.context matches Some(c) && c != Seq::<char>::empty()
    }

    /// Whether the owner takes more room than a compact inode has for it.
    pub open spec fn widely_owned(self) -> bool {
        self.uid > 0xffff || self.gid > 0xffff
    }

    /// The bytes of a fresh inode: it is compact where the owner fits, and
    /// else extended.
    pub open spec fn body(self) -> int {
        if self.widely_owned() {
            64
        } else {
            32
        }
    }

    /// The number of 32-byte slots that a fresh inode takes: the inode, its
    /// area of extended attributes, and for a compressed file the map header
    /// and the index.
    pub open spec fn slots(self) -> int {
        let area: int = if self.labelled() {
            16
        } else {
            0
        };
        if self.erofs_compact_clusters == 0 {
            ceil_div(self.body() + area, 32)
        } else {
            ceil_div(self.body() + area + 8 + ceil_div(self.erofs_compact_clusters as int, 2) * 8, 32)
        }
    }
}

impl Node {
    /// Whether the node is a directory.
    pub fn is_dir(&self) -> (b: bool)
        ensures
            b == self@.is_dir(),
    {
        self.mode & 0xf000 == 0x4000
    }

    /// Whether the node is a regular file.
    pub fn is_regular(&self) -> (b: bool)
        ensures
            b == self@.is_regular(),
    {
        self.mode & 0xf000 == 0x8000
    }

    /// The content that the node itself holds.
    pub fn data(&self) -> (d: &[u8])
        ensures
            d@ == self@.data(),
    {
        match &self.payload {
            NodePayload::Empty => &[],
            NodePayload::InlineDir(d) => d.as_slice(),
            NodePayload::Memory(d) => d.as_slice(),
        }
    }

    /// The size of the content.
    pub fn data_len(&self) -> (n: u64)
        ensures
            n == self@.size(),
    {
        match &self.payload {
            NodePayload::Empty => self.data_size,
            NodePayload::InlineDir(d) => d.len() as u64,
            NodePayload::Memory(d) => d.len() as u64,
        }
    }

    /// A copy of the node and everything below it.
    pub fn duplicate(&self) -> (r: Node)
        ensures
            r@ == self@,
        decreases self,
    {
        let mut children: Vec<Node> = Vec::new();
        let mut i: usize = 0;
        while i < self.children.len()
            invariant
                i <= self.children@.len(),
                children@.len() == i,
                forall|k: int| 0 <= k < i ==> (#[trigger] children@[k])@ == self.children@[k]@,
            decreases self.children.len() - i,
        {
            let child = self.children[i].duplicate();
            children.push(child);
            i += 1;
        }
        let mut extents: Vec<(u64, u64, u64)> = Vec::new();
        let mut j: usize = 0;
        while j < self.extents.len()
            invariant
                j <= self.extents@.len(),
                extents@ == self.extents@.take(j as int),
            decreases self.extents.len() - j,
        {
            extents.push(self.extents[j]);
            j += 1;
            assert(extents@ =~= self.extents@.take(j as int));
        }
        let payload = match &self.payload {
            NodePayload::Empty => NodePayload::Empty,
            NodePayload::InlineDir(d) => NodePayload::InlineDir(copy_range(d, 0, d.len())),
            NodePayload::Memory(d) => NodePayload::Memory(copy_range(d, 0, d.len())),
        };
        proof {
            assert(node_views(children@) =~= node_views(self.children@));
            assert(extents@ =~= self.extents@);
            match &self.payload {
                NodePayload::Empty => {},
                NodePayload::InlineDir(d) => {
                    assert(d@.subrange(0, d@.len() as int) =~= d@);
                },
                NodePayload::Memory(d) => {
                    assert(d@.subrange(0, d@.len() as int) =~= d@);
                },
            }
        }
        Node {
            nid: self.nid,
            original_nid: self.original_nid,
            parent_nid: self.parent_nid,
            name: self.name.clone(),
            mode: self.mode,
            uid: self.uid,
            gid: self.gid,
            payload,
            data_size: self.data_size,
            children,
            layout: self.layout,
            raw_block: self.raw_block,
            modified: self.modified,
            content_changed: self.content_changed,
            context: copy_opt(&self.context),
            context_explicit: self.context_explicit,
            extents,
            erofs_compact_clusters: self.erofs_compact_clusters,
        }
    }
}

/// Whether a fresh inode needs an area of extended attributes.
pub fn node_needs_xattr(node: &Node) -> (b: bool)
    ensures
        b == node@.labelled(),
{
    match &node.context {
        None => false,
        Some(c) => {
            proof {
                reveal_strlit("");
                assert(""@ =~= Seq::<char>::empty());
            }
            !same(c.as_str(), "")
        },
    }
}

/// The largest number of clusters for which slots are counted.
pub const MAX_COMPACT_CLUSTERS: u64 = 0x400_0000_0000_0000;

/// The number of 32-byte slots that a fresh inode takes.
pub fn inode_slots(node: &Node) -> (n: u64)
    requires
        node.erofs_compact_clusters <= MAX_COMPACT_CLUSTERS,
    ensures
        n == node@.slots(),
        1 <= n <= MAX_COMPACT_CLUSTERS,
{
    let body = inode_body_size(node);
    let area: u64 = if node_needs_xattr(node) {
        16
    } else {
        0
    };
    if node.erofs_compact_clusters == 0 {
        return (body + area + 31) / 32;
    }
    let index = (node.erofs_compact_clusters + 1) / 2 * 8;
    (body + area + 8 + index + 31) / 32
}

/// The bytes of a fresh inode.
pub fn inode_body_size(node: &Node) -> (n: u64)
    ensures
        n == node@.body(),
{
    if node.uid > 0xffff || node.gid > 0xffff {
        64
    } else {
        32
    }
}

/// The nodes of the tree, each in front of what is below it.
pub open spec fn preorder(n: NodeView) -> Seq<NodeView>
    decreases n,
{
    seq![n] + all_preorder(n.children)
}

/// The nodes of the trees, one tree behind the other.
pub open spec fn all_preorder(s: Seq<NodeView>) -> Seq<NodeView>
    decreases s,
{
    if s.len() == 0 {
        Seq::empty()
    } else {
        all_preorder(s.subrange(0, s.len() - 1)) + preorder(s[s.len() - 1])
    }
}

/// The views of references to nodes.
pub open spec fn ref_views(s: Seq<&Node>) -> Seq<NodeView> {
    s.map_values(|n: &Node| n@)
}

/// The first elements of a sequence of views, one more at a time.
pub proof fn node_views_take(s: Seq<Node>, i: int)
    requires
        0 <= i < s.len(),
    ensures
        node_views(s).len() == s.len(),
        node_views(s)[i] == s[i]@,
        node_views(s).take(i + 1).subrange(0, i) == node_views(s).take(i),
        node_views(s).take(i + 1)[i] == s[i]@,
        node_views(s).take(0) == Seq::<NodeView>::empty(),
        node_views(s).take(s.len() as int) == node_views(s),
{
    let v = node_views(s);
    assert(v.take(i + 1).subrange(0, i) =~= v.take(i));
    assert(v.take(0) =~= Seq::empty());
    assert(v.take(s.len() as int) =~= v);
}

/// Lists the nodes of the tree behind `result`.
pub fn nodes<'a>(node: &'a Node, result: &mut Vec<&'a Node>)
    ensures
        ref_views(final(result)@) == ref_views(old(result)@) + preorder(node@),
    decreases node,
{
    let ghost before = ref_views(result@);
    result.push(node);
    assert(ref_views(result@) =~= before + seq![node@]);
    let ghost v = node_views(node.children@);
    assert(v.take(0) =~= Seq::empty());
    assert(before + seq![node@] + all_preorder(v.take(0)) =~= before + seq![node@]);
    let mut i: usize = 0;
    while i < node.children.len()
        invariant
            i <= node.children@.len(),
            v == node_views(node.children@),
            ref_views(result@) == before + seq![node@] + all_preorder(v.take(i as int)),
        decreases node.children.len() - i,
    {
        proof {
            node_views_take(node.children@, i as int);
        }
        nodes(&node.children[i], result);
        proof {
            assert(ref_views(result@) =~= before + seq![node@] + all_preorder(v.take(i + 1)));
        }
        i += 1;
    }
    assert(v.take(i as int) =~= v);
    assert(ref_views(result@) =~= before + preorder(node@));
}

// ---------------------------------------------------------------------
// Order
// ---------------------------------------------------------------------
/// Where a node goes among sorted ones: behind those whose names do not
/// come after its own.
pub open spec fn node_place(s: Seq<NodeView>, name: Seq<char>) -> int
    decreases s.len(),
{
    if s.len() == 0 || !text_less(name, s.last().name) {
        s.len() as int
    } else {
        node_place(s.drop_last(), name)
    }
}

/// The nodes by name.
pub open spec fn sorted_nodes(s: Seq<NodeView>) -> Seq<NodeView>
    decreases s.len(),
{
    if s.len() == 0 {
        s
    } else {
        let rest = sorted_nodes(s.drop_last());
        rest.insert(node_place(rest, s.last().name), s.last())
    }
}

/// The tree with the children of every directory by name.
pub open spec fn sorted_tree(n: NodeView) -> NodeView
    decreases n,
{
    NodeView { children: sorted_nodes(all_sorted(n.children)), ..n }
}

/// The trees with the children of every directory by name.
pub open spec fn all_sorted(s: Seq<NodeView>) -> Seq<NodeView>
    decreases s,
{
    Seq::new(
        s.len(),
        |i: int|
            if 0 <= i < s.len() {
                sorted_tree(s[i])
            } else {
                arbitrary()
            },
    )
}

/// No node comes before one whose name comes before its own.
pub open spec fn in_order(s: Seq<NodeView>) -> bool {
    forall|i: int, j: int|
        0 <= i <= j < s.len() ==> !text_less((#[trigger] s[j]).name, (#[trigger] s[i]).name)
}

/// A node goes behind the last one whose name does not come after its own.
proof fn node_place_divides(s: Seq<NodeView>, name: Seq<char>)
    ensures
        ({
            let p = node_place(s, name);
            &&& 0 <= p <= s.len()
            &&& p > 0 ==> !text_less(name, s[p - 1].name)
            &&& forall|k: int| p <= k < s.len() ==> text_less(name, (#[trigger] s[k]).name)
        }),
    decreases s.len(),
{
    if s.len() > 0 {
        let front = s.drop_last();
        node_place_divides(front, name);
        if text_less(name, s.last().name) {
            let p = node_place(s, name);
            assert forall|k: int| p <= k < s.len() implies text_less(
                name,
                (#[trigger] s[k]).name,
            ) by {
                if k < s.len() - 1 {
                    assert(front[k] == s[k]);
                }
            }
            if p > 0 {
                assert(front[p - 1] == s[p - 1]);
            }
        }
    }
}

proof fn insertion_keeps_order(s: Seq<NodeView>, n: NodeView)
    requires
        in_order(s),
    ensures
        in_order(s.insert(node_place(s, n.name), n)),
{
    let p = node_place(s, n.name);
    node_place_divides(s, n.name);
    let t = s.insert(p, n);
    assert forall|i: int, j: int| 0 <= i <= j < t.len() implies !text_less(
        (#[trigger] t[j]).name,
        (#[trigger] t[i]).name,
    ) by {
        let a = encode_utf8(t[i].name);
        let b = encode_utf8(n.name);
        let c = encode_utf8(t[j].name);
        if j == p && i < p {
            let last = encode_utf8(s[p - 1].name);
            assert(!text_less(s[p - 1].name, s[i].name));
            bytes_less_is_transitive(a, last, b);
        } else if i == p && j > p {
            assert(text_less(n.name, s[j - 1].name));
            bytes_less_is_total(b, c);
        } else if i == j {
            bytes_less_is_total(a, c);
        } else {
            let x = if i < p {
                i
            } else {
                i - 1
            };
            let y = if j < p {
                j
            } else {
                j - 1
            };
            assert(t[i] == s[x] && t[j] == s[y]);
        }
    }
}

/// Sorting keeps all nodes and puts them in the order of their names.
pub proof fn sorting_keeps_the_nodes(s: Seq<NodeView>)
    ensures
        sorted_nodes(s).to_multiset() == s.to_multiset(),
        in_order(sorted_nodes(s)),
    decreases s.len(),
{
    if s.len() > 0 {
        let front = s.drop_last();
        let rest = sorted_nodes(front);
        sorting_keeps_the_nodes(front);
        insertion_keeps_order(rest, s.last());
        node_place_divides(rest, s.last().name);
        vstd::seq_lib::to_multiset_insert(rest, node_place(rest, s.last().name), s.last());
        vstd::seq_lib::to_multiset_build(front, s.last());
        assert(front.push(s.last()) =~= s);
    }
}

fn sort_nodes(v: &mut Vec<Node>)
    ensures
        node_views(final(v)@) == sorted_nodes(node_views(old(v)@)),
{
    let ghost all = node_views(v@);
    let ghost first = v@;
    let mut i: usize = 0;
    assert(node_views(v@).take(0) =~= sorted_nodes(all.take(0)));
    while i < v.len()
        invariant
            i <= v@.len() == all.len(),
            all == node_views(first),
            first.len() == all.len(),
            node_views(v@).take(i as int) == sorted_nodes(all.take(i as int)),
            forall|k: int| i <= k < v@.len() ==> v@[k] == first[k],
        decreases v.len() - i,
    {
        let ghost have = node_views(v@).take(i as int);
        let ghost name = v@[i as int].name@;
        let mut at = i;
        assert(have.take(at as int) =~= have);
        while at > 0 && is_less(v[i].name.as_str(), v[at - 1].name.as_str())
            invariant
                at <= i < v@.len(),
                have == node_views(v@).take(i as int),
                name == v@[i as int].name@,
                node_place(have, name) == node_place(have.take(at as int), name),
            decreases at,
        {
            proof {
                let h = have.take(at as int);
                assert(h.last() == v@[at - 1]@);
                assert(h.drop_last() =~= have.take(at - 1));
            }
            at -= 1;
        }
        proof {
            let h = have.take(at as int);
            if at > 0 {
                assert(h.last() == v@[at - 1]@);
            }
            let n = all.take(i + 1);
            assert(n.drop_last() =~= all.take(i as int));
            assert(n.last() == v@[i as int]@);
            assert(node_place(have, name) == at);
        }
        let ghost before = v@;
        if at < i {
            let node = v.remove(i);
            v.insert(at, node);
        }
        proof {
            assert(v@ =~= before.remove(i as int).insert(at as int, before[i as int]));
            assert(node_views(v@).take(i + 1) =~= have.insert(at as int, before[i as int]@));
        }
        i += 1;
    }
    assert(node_views(v@).take(i as int) =~= node_views(v@));
    assert(all.take(i as int) =~= all);
}

/// Sorts the children of every directory by name.
pub fn sort_tree(node: &mut Node)
    ensures
        final(node)@ == sorted_tree(old(node)@),
    decreases *old(node),
{
    let n = node.children.len();
    let mut i: usize = 0;
    let ghost first = node.children@;
    while i < n
        invariant
            i <= n == first.len() == node.children@.len(),
            first == old(node).children@,
            forall|k: int| i <= k < n ==> node.children@[k] == first[k],
            forall|k: int| 0 <= k < i ==> (#[trigger] node.children@[k])@ == sorted_tree(first[k]@),
            *node == (Node { children: node.children, ..*old(node) }),
        decreases n - i,
    {
        sort_tree(&mut node.children[i]);
        i += 1;
    }
    proof {
        assert(node_views(node.children@) =~= all_sorted(node_views(first)));
    }
    sort_nodes(&mut node.children);
}

// ---------------------------------------------------------------------
// SELinux contexts
// ---------------------------------------------------------------------
/// The contexts of the tree that `found` does not have yet, behind it.
pub open spec fn contexts_into(n: NodeView, found: Seq<Seq<char>>) -> Seq<Seq<char>>
    decreases n,
{
    let own = if n.labelled() && !found.contains(n.context->Some_0) {
        found.push(n.context->Some_0)
    } else {
        found
    };
    all_contexts_into(n.children, own)
}

/// The contexts of the trees that `found` does not have yet, behind it.
pub open spec fn all_contexts_into(s: Seq<NodeView>, found: Seq<Seq<char>>) -> Seq<Seq<char>>
    decreases s,
{
    if s.len() == 0 {
        found
    } else {
        contexts_into(
            s[s.len() - 1],
            all_contexts_into(s.subrange(0, s.len() - 1), found),
        )
    }
}

/// The contexts of the tree, in order and without repetition.
pub open spec fn contexts_of(n: NodeView) -> Seq<Seq<char>> {
    sorted_texts(contexts_into(n, Seq::empty()))
}

fn holds_text(v: &Vec<String>, t: &str) -> (b: bool)
    ensures
        b == texts(v@).contains(t@),
{
    let mut i: usize = 0;
    while i < v.len()
        invariant
            i <= v@.len(),
            forall|k: int| 0 <= k < i ==> texts(v@)[k] != t@,
        decreases v.len() - i,
    {
        if same(v[i].as_str(), t) {
            assert(texts(v@)[i as int] == t@);
            return true;
        }
        assert(texts(v@)[i as int] == v@[i as int]@);
        i += 1;
    }
    false
}

fn gather_contexts(node: &Node, out: &mut Vec<String>)
    ensures
        texts(final(out)@) == contexts_into(node@, texts(old(out)@)),
    decreases node,
{
    let ghost before = texts(out@);
    if node_needs_xattr(node) {
        if let Some(context) = &node.context {
            if !holds_text(out, context.as_str()) {
                out.push(context.clone());
                assert(texts(out@) =~= before.push(context@));
            }
        }
    }
    let ghost own = texts(out@);
    let ghost v = node_views(node.children@);
    let mut i: usize = 0;
    assert(v.take(0) =~= Seq::empty());
    while i < node.children.len()
        invariant
            i <= node.children@.len(),
            v == node_views(node.children@),
            texts(out@) == all_contexts_into(v.take(i as int), own),
        decreases node.children.len() - i,
    {
        proof {
            node_views_take(node.children@, i as int);
        }
        gather_contexts(&node.children[i], out);
        i += 1;
    }
    assert(v.take(i as int) =~= v);
}

/// The contexts of the tree, in order and without repetition.
pub fn collect_contexts(root: &Node) -> (out: Vec<String>)
    ensures
        texts(out@) == contexts_of(root@),
{
    let mut out: Vec<String> = Vec::new();
    assert(texts(out@) =~= Seq::empty());
    gather_contexts(root, &mut out);
    sort_strings(out)
}

} // verus!
