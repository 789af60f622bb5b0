//! The way from an edited tree to an image: which writer takes it.
use super::append::{append_plan, plan_append};
use super::args::{action_views, Config, ConfigView, FsTarget};
use super::blocks::Volume;
use super::convert::{
    block_size_of, contained, convert_container, erofs_as_ext4, erofs_to_ext4, exported,
    ext4_as_erofs, ext4_to_erofs, fs_block_size, left_out,
};
use super::edit::{Action, ActionView};
use super::ext4_plan::{fresh_ext4, rebuild_generic};
use super::ext4_source::{ext4_editable, ext4_tree, Ext4Source};
use super::node::{children_seen, node_views, node_views_take, Node, NodeView};
use super::overlay::{
    dir_views, has_explicit_context, membership, overlay_plan, plan_overlay,
    root_has_explicit_context, snapshot_dirs, DirNames, DirNamesView,
};
use super::packed::{packs_faithfully, rebuild_compressed, repacked_image};
use super::patch::{
    packaged, patch_inode_metadata, patched, retouched_image, write_image, Patch, PatchView,
    Patched,
};
use super::rebuild::{plain_image, rebuild_plain, stored};
use super::source::{editable, Source};
use super::store::ByteStore;
use crate::error::{fail, Error, Fault};
use crate::fs::erofs::codec::Algo;
use crate::fs::erofs::inode::LAYOUT_COMPRESSED_COMPACT;
use crate::fs::erofs::{super_of, superblock_is_its_view, Superblock};
use crate::fs::ext4;
use crate::fs::ext4::EXT4_SHARED_BLOCKS;
use crate::fs::FsKind;
use crate::image::{ByteSink, ByteSource, Image};
use crate::text::same;
use vstd::prelude::*;

verus! {

// ---------------------------------------------------------------------
// Options
// ---------------------------------------------------------------------
/// Whether the options go with the filesystem that is written.
pub open spec fn options_fit(c: ConfigView, kind: FsKind) -> Result<(), Fault> {
    let packs = c.compress_explicit && c.compress != Algo::Off;
    match c.convert_to {
        Some(target) => if c.reserve_mb > 0 && target == FsTarget::Erofs {
            fail("--reserve-mb applies to ext4 output only"@)
        } else if c.shared_blocks is Some && target == FsTarget::Erofs {
            fail("--shared-blocks applies to ext4 output only"@)
        } else if packs && target == FsTarget::Ext4 {
            fail("--compress applies to EROFS output only"@)
        } else {
            Ok(())
        },
        None => if packs && kind == FsKind::Ext4 {
            fail("--compress applies to EROFS output only"@)
        } else if c.reserve_mb > 0 && kind == FsKind::Erofs {
            fail("--reserve-mb applies to ext4 output only"@)
        } else {
            Ok(())
        },
    }
}

fn is_erofs(target: FsTarget) -> (b: bool)
    ensures
        b == (target == FsTarget::Erofs),
{
    match target {
        FsTarget::Erofs => true,
        FsTarget::Ext4 => false,
    }
}

fn is_ext4(kind: FsKind) -> (b: bool)
    ensures
        b == (kind == FsKind::Ext4),
{
    match kind {
        FsKind::Erofs => false,
        FsKind::Ext4 => true,
    }
}

/// Checks that the options go with the filesystem that is written.
pub fn check_options(c: &Config, kind: FsKind) -> (r: Result<(), Error>)
    ensures
        match r {
            Ok(_) => options_fit(c@, kind) is Ok,
            Err(e) => options_fit(c@, kind) == Err::<(), Fault>(e@),
        },
{
    let packs = c.compress_explicit && c.compress != Algo::Off;
    match c.convert_to {
        Some(target) => {
            if c.reserve_mb > 0 && is_erofs(target) {
                return Err(Error::invalid("--reserve-mb applies to ext4 output only"));
            }
            if c.shared_blocks.is_some() && is_erofs(target) {
                return Err(Error::invalid("--shared-blocks applies to ext4 output only"));
            }
            if packs && !is_erofs(target) {
                return Err(Error::invalid("--compress applies to EROFS output only"));
            }
        },
        None => {
            if packs && is_ext4(kind) {
                return Err(Error::invalid("--compress applies to EROFS output only"));
            }
            if c.reserve_mb > 0 && !is_ext4(kind) {
                return Err(Error::invalid("--reserve-mb applies to ext4 output only"));
            }
        },
    }
    Ok(())
}

/// The compression of a conversion: LZ4 for EROFS images of ext4 images,
/// unless it was asked for otherwise.
pub open spec fn conversion_algo(c: ConfigView, kind: FsKind) -> Algo {
    if c.convert_to == Some(FsTarget::Erofs) && !c.compress_explicit && kind == FsKind::Ext4 {
        Algo::Lz4
    } else {
        c.compress
    }
}

/// Chooses the compression of a conversion.
pub fn choose_conversion_algo(c: &Config, kind: FsKind) -> (a: Algo)
    ensures
        a == conversion_algo(c@, kind),
{
    match c.convert_to {
        Some(target) => {
            if is_erofs(target) && !c.compress_explicit && is_ext4(kind) {
                return Algo::Lz4;
            }
        },
        None => {},
    }
    c.compress
}

/// Whether a file of the tree is stored compressed.
pub open spec fn has_packed(n: NodeView) -> bool
    decreases n,
{
    n.layout == LAYOUT_COMPRESSED_COMPACT || any_packed(n.children)
}

/// Whether a file of the trees is stored compressed.
pub open spec fn any_packed(s: Seq<NodeView>) -> bool
    decreases s,
{
    s.len() > 0 && (any_packed(s.subrange(0, s.len() - 1)) || has_packed(s[s.len() - 1]))
}

proof fn packed_early(s: Seq<NodeView>, i: int)
    requires
        0 <= i <= s.len(),
        any_packed(s.take(i)),
    ensures
        any_packed(s),
    decreases s.len(),
{
    if i == s.len() {
        assert(s.take(i) =~= s);
    } else {
        let front = s.subrange(0, s.len() - 1);
        assert(front.take(i) =~= s.take(i));
        packed_early(front, i);
    }
}

/// Whether a file of the tree is stored compressed.
pub fn tree_has_compressed(node: &Node) -> (b: bool)
    ensures
        b == has_packed(node@),
    decreases node,
{
    if node.layout == LAYOUT_COMPRESSED_COMPACT {
        return true;
    }
    let ghost views = node_views(node.children@);
    let mut i: usize = 0;
    proof {
        children_seen(*node);
        assert(views.take(0) =~= Seq::empty());
    }
    while i < node.children.len()
        invariant
            i <= node.children@.len(),
            views == node_views(node.children@),
            node@.children == views,
            views.len() == node.children@.len(),
            node.layout != LAYOUT_COMPRESSED_COMPACT,
            !any_packed(views.take(i as int)),
        decreases node.children.len() - i,
    {
        proof {
            node_views_take(node.children@, i as int);
        }
        if tree_has_compressed(&node.children[i]) {
            proof {
                packed_early(views, i + 1);
            }
            return true;
        }
        i += 1;
    }
    assert(views.take(i as int) =~= views);
    false
}

// ---------------------------------------------------------------------
// Plans
// ---------------------------------------------------------------------
/// Whether one of the actions takes a node away.
pub open spec fn any_removal(s: Seq<ActionView>) -> bool {
    exists|i: int| 0 <= i < s.len() && #[trigger] s[i] is Remove
}

/// Whether an action changes nothing but metadata.
pub open spec fn only_touches(a: ActionView) -> bool {
    a is SetMode || a is SetOwner || a is SetContext
}

/// Whether the actions change nothing but metadata.
pub open spec fn all_touch(s: Seq<ActionView>) -> bool {
    forall|i: int| 0 <= i < s.len() ==> only_touches(#[trigger] s[i])
}

/// What decides how an edited EROFS image is written.
#[verifier::ext_equal]
pub struct PlanView {
    /// The compression of a rebuild.
    pub algo: Algo,
    pub single_add: bool,
    pub metadata_only: bool,
    /// Removals have to shrink the image, and compression that was asked for
    /// has to reach every file.
    pub whole: bool,
    /// The names in every directory before the actions.
    pub before: Seq<DirNamesView>,
}

/// What decides how an EROFS image is written, from its tree before the
/// actions.
pub open spec fn edit_plan(
    root: NodeView,
    actions: Seq<ActionView>,
    compress: Algo,
    explicit: bool,
) -> PlanView {
    PlanView {
        algo: if explicit {
            compress
        } else if has_packed(root) {
            Algo::Lz4
        } else {
            Algo::Off
        },
        single_add: actions.len() == 1 && actions[0] is Add,
        metadata_only: all_touch(actions),
        whole: any_removal(actions) || (explicit && compress != Algo::Off),
        before: membership(root),
    }
}

/// What decides how an edited EROFS image is written.
pub struct EditPlan {
    pub algo: Algo,
    pub single_add: bool,
    pub metadata_only: bool,
    pub whole: bool,
    pub before: Vec<DirNames>,
}

impl View for EditPlan {
    type V = PlanView;

    open spec fn view(&self) -> PlanView {
        PlanView {
            algo: self.algo,
            single_add: self.single_add,
            metadata_only: self.metadata_only,
            whole: self.whole,
            before: dir_views(self.before@),
        }
    }
}

/// Whether one of the actions takes a node away.
pub fn has_removal(actions: &Vec<Action>) -> (b: bool)
    ensures
        b == any_removal(action_views(actions@)),
{
    let ghost s = action_views(actions@);
    let mut i: usize = 0;
    while i < actions.len()
        invariant
            i <= actions@.len() == s.len(),
            s == action_views(actions@),
            forall|k: int| 0 <= k < i ==> !(#[trigger] s[k] is Remove),
        decreases actions.len() - i,
    {
        assert(s[i as int] == actions@[i as int]@);
        match &actions[i] {
            Action::Remove { .. } => {
                assert(s[i as int] is Remove);
                return true;
            },
            _ => {},
        }
        i += 1;
    }
    false
}

fn touches_only(actions: &Vec<Action>) -> (b: bool)
    ensures
        b == all_touch(action_views(actions@)),
{
    let ghost s = action_views(actions@);
    let mut i: usize = 0;
    while i < actions.len()
        invariant
            i <= actions@.len() == s.len(),
            s == action_views(actions@),
            forall|k: int| 0 <= k < i ==> only_touches(#[trigger] s[k]),
        decreases actions.len() - i,
    {
        assert(s[i as int] == actions@[i as int]@);
        match &actions[i] {
            Action::SetMode { .. } => {},
            Action::SetOwner { .. } => {},
            Action::SetContext { .. } => {},
            _ => {
                assert(!only_touches(s[i as int]));
                return false;
            },
        }
        i += 1;
    }
    true
}

fn adds_one(actions: &Vec<Action>) -> (b: bool)
    ensures
        b == (action_views(actions@).len() == 1 && action_views(actions@)[0] is Add),
{
    if actions.len() != 1 {
        return false;
    }
    assert(action_views(actions@)[0] == actions@[0]@);
    match &actions[0] {
        Action::Add { .. } => true,
        _ => false,
    }
}

/// Decides how an EROFS image is written, from its tree before the actions.
pub fn plan_edit(root: &Node, actions: &Vec<Action>, compress: Algo, explicit: bool) -> (p: EditPlan)
    ensures
        p@ == edit_plan(root@, action_views(actions@), compress, explicit),
{
    let algo = if explicit {
        compress
    } else if tree_has_compressed(root) {
        Algo::Lz4
    } else {
        Algo::Off
    };
    let mut before: Vec<DirNames> = Vec::new();
    assert(dir_views(before@) =~= Seq::empty());
    snapshot_dirs(root, &mut before);
    assert(dir_views(before@) =~= membership(root@));
    EditPlan {
        algo,
        single_add: adds_one(actions),
        metadata_only: touches_only(actions),
        whole: has_removal(actions) || (explicit && compress != Algo::Off),
        before,
    }
}

// ---------------------------------------------------------------------
// Writing
// ---------------------------------------------------------------------
/// Where a written image is.
pub enum Delivery {
    /// In the output, in the container that was asked for.
    Sent,
    /// In the store, raw; it is still to be put into a container, with the
    /// given block size.
    Stored(u64),
}

/// The mathematical counterpart of [`Delivery`], with the image.
pub enum Output {
    Sent(Seq<u8>),
    Stored(Seq<u8>, int),
}

/// An image was written as expected, or writing it failed.
pub open spec fn delivered(
    unreliable: bool,
    r: Result<Delivery, Error>,
    before: Seq<u8>,
    written: Seq<u8>,
    content: Seq<u8>,
    expected: Result<Output, Fault>,
) -> bool {
    match r {
        Ok(Delivery::Sent) => expected matches Ok(Output::Sent(data)) && written == before + data,
        Ok(Delivery::Stored(block)) => expected == Ok::<Output, Fault>(
            Output::Stored(content, block as int),
        ),
        Err(e) => expected == Err::<Output, Fault>(e@) || (e is Io && unreliable),
    }
}

/// The image that a full rebuild makes.
pub open spec fn rebuilt(sb: Superblock, d: Seq<u8>, root: NodeView, algo: Algo, build_time: u64) -> Result<
    Output,
    Fault,
> {
    match if algo == Algo::Off {
        plain_image(sb, d, root)
    } else {
        repacked_image(sb, d, root, algo, build_time)
    } {
        Err(e) => Err(e),
        Ok(image) => Ok(Output::Stored(image, sb.block_size as int)),
    }
}

/// Rebuilds an EROFS image.
pub fn rebuild<S: ByteSource, T: ByteStore>(
    source: &Source<S>,
    root: &mut Node,
    algo: Algo,
    build_time: u64,
    store: &mut T,
) -> (r: Result<Delivery, Error>)
    requires
        source.wf(),
    ensures
        final(store).failing() == old(store).failing(),
        !(r matches Ok(Delivery::Sent)),
        delivered(
            source.reader.faulty() || old(store).failing(),
            r,
            Seq::empty(),
            Seq::empty(),
            final(store).content(),
            rebuilt(source.sb, source.reader.disk(), old(root)@, algo, build_time),
        ),
        r is Ok && algo != Algo::Off ==> packs_faithfully(
            (Volume::Erofs { sb: source.sb, d: source.reader.disk() }),
            old(root)@,
            source.sb.block_size as int,
            source.sb.meta_blkaddr as int,
            algo,
        ),
{
    if algo == Algo::Off {
        rebuild_plain(source, root, store)?;
    } else {
        rebuild_compressed(source, root, algo, build_time, store)?;
    }
    Ok(Delivery::Stored(source.sb.block_size))
}

/// The image of patches over an image.
pub open spec fn patched_output(
    sb: Superblock,
    d: Seq<u8>,
    patches: Seq<PatchView>,
    size: int,
    sparse: bool,
) -> Result<Output, Fault> {
    match packaged(patched(d, patches, size), sb.block_size as int, sparse) {
        Err(e) => Err(e),
        Ok(data) => Ok(Output::Sent(data)),
    }
}

/// The image of an edited EROFS tree. Changes of metadata alone are patched
/// in place, where inodes have room for them; a file that is added alone is appended, and other changes are
/// laid over the image, where that can be done; everything else is rebuilt.
pub open spec fn edited(
    sb: Superblock,
    d: Seq<u8>,
    p: PlanView,
    root: NodeView,
    sparse: bool,
    build_time: u64,
) -> Result<Output, Fault> {
    if p.metadata_only {
        if has_explicit_context(root) {
            rebuilt(sb, d, root, p.algo, build_time)
        } else {
            match retouched_image(sb, d, root, sparse) {
                Err(e) => if e == Fault::Invalid("overlay unsupported; legacy rebuild required"@) {
                    rebuilt(sb, d, root, p.algo, build_time)
                } else {
                    Err(e)
                },
                Ok(data) => Ok(Output::Sent(data)),
            }
        }
    } else if p.whole {
        rebuilt(sb, d, root, p.algo, build_time)
    } else if p.single_add {
        match append_plan(sb, d, root) {
            Err(_) => rebuilt(sb, d, root, p.algo, build_time),
            Ok((patches, size)) => patched_output(sb, d, patches, size, sparse),
        }
    } else {
        match overlay_plan(sb, d, root, p.before) {
            Err(e) => if e == Fault::Invalid("overlay unsupported; legacy rebuild required"@) {
                rebuilt(sb, d, root, p.algo, build_time)
            } else {
                Err(e)
            },
            Ok((patches, size)) => patched_output(sb, d, patches, size, sparse),
        }
    }
}

/// Whether an edit that failed can be made by a rebuild.
fn needs_rebuild(e: &Error) -> (b: bool)
    ensures
        b == (e@ == Fault::Invalid("overlay unsupported; legacy rebuild required"@)),
{
    match e {
        Error::Io => false,
        Error::Invalid(m) => same(m.as_str(), "overlay unsupported; legacy rebuild required"),
    }
}

fn send_patched<S: ByteSource, O: ByteSink>(
    source: &Source<S>,
    patches: Vec<Patch>,
    size: u64,
    sparse: bool,
    out: &mut O,
) -> (r: Result<Delivery, Error>)
    requires
        source.wf(),
    ensures
        final(out).full() == old(out).full(),
        r is Ok ==> r->Ok_0 is Sent,
        delivered(
            source.reader.faulty() || old(out).full(),
            r,
            old(out).written(),
            final(out).written(),
            Seq::empty(),
            patched_output(
                source.sb,
                source.reader.disk(),
                super::patch::patch_views(patches@),
                size as int,
                sparse,
            ),
        ),
{
    let image = Patched::new(&source.reader, patches, size);
    write_image(&image, source.sb.block_size as usize, sparse, out)?;
    Ok(Delivery::Sent)
}

/// Writes an edited EROFS tree. Where storage fails while the end of the
/// image is planned, it is rebuilt instead.
pub fn finish_edit<S: ByteSource, T: ByteStore, O: ByteSink>(
    source: &Source<S>,
    plan: &EditPlan,
    root: &mut Node,
    sparse: bool,
    build_time: u64,
    store: &mut T,
    out: &mut O,
) -> (r: Result<Delivery, Error>)
    requires
        source.wf(),
    ensures
        final(store).failing() == old(store).failing(),
        final(out).full() == old(out).full(),
        ({
            let unreliable = source.reader.faulty() || old(store).failing() || old(out).full();
            ||| delivered(
                unreliable,
                r,
                old(out).written(),
                final(out).written(),
                final(store).content(),
                edited(
                    source.sb,
                    source.reader.disk(),
                    plan@,
                    old(root)@,
                    sparse,
                    build_time,
                ),
            )
            ||| source.reader.faulty() && plan.single_add && delivered(
                unreliable,
                r,
                old(out).written(),
                final(out).written(),
                final(store).content(),
                rebuilt(source.sb, source.reader.disk(), old(root)@, plan.algo, build_time),
            )
        }),
        r matches Ok(Delivery::Stored(_)) && plan.algo != Algo::Off ==> packs_faithfully(
            (Volume::Erofs { sb: source.sb, d: source.reader.disk() }),
            old(root)@,
            source.sb.block_size as int,
            source.sb.meta_blkaddr as int,
            plan.algo,
        ),
{
    if plan.metadata_only {
        if root_has_explicit_context(root) {
            return rebuild(source, root, plan.algo, build_time, store);
        }
        return match patch_inode_metadata(source, root, sparse, out) {
            Ok(_) => Ok(Delivery::Sent),
            Err(e) => {
                if needs_rebuild(&e) {
                    rebuild(source, root, plan.algo, build_time, store)
                } else {
                    Err(e)
                }
            },
        };
    }
    if plan.whole {
        return rebuild(source, root, plan.algo, build_time, store);
    }
    let mut copy = root.duplicate();
    if plan.single_add {
        match plan_append(source, &mut copy) {
            Ok((patches, size)) => send_patched(source, patches, size, sparse, out),
            Err(_) => rebuild(source, root, plan.algo, build_time, store),
        }
    } else {
        match plan_overlay(source, &mut copy, &plan.before) {
            Ok((patches, size)) => send_patched(source, patches, size, sparse, out),
            Err(e) => {
                if needs_rebuild(&e) {
                    rebuild(source, root, plan.algo, build_time, store)
                } else {
                    Err(e)
                }
            },
        }
    }
}

/// Whether an ext4 image shares blocks: as asked for, or as it did.
pub open spec fn shares(p: ext4::Superblock, asked: Option<bool>) -> bool {
    match asked {
        Some(b) => b,
        None => p.ro_compat & EXT4_SHARED_BLOCKS != 0,
    }
}

/// Writes an edited ext4 tree: removals imply the fewest block groups.
pub fn finish_ext4<S: ByteSource, T: ByteStore>(
    source: &mut Ext4Source<S>,
    root: &mut Node,
    removal: bool,
    shared: Option<bool>,
    reserve_mb: u64,
    compact: bool,
    store: &mut T,
) -> (r: Result<(), Error>)
    requires
        old(source).wf(),
    ensures
        final(store).failing() == old(store).failing(),
        stored(
            old(source).reader.faulty() || old(store).failing(),
            r,
            final(store).content(),
            fresh_ext4(
                (Volume::Ext4 { sb: old(source).profile, d: old(source).reader.disk() }),
                old(root)@,
                old(source).profile,
                shares(old(source).profile, shared),
                reserve_mb,
                true,
                compact || removal,
            ),
        ),
{
    let profile = source.profile;
    let share = match shared {
        Some(b) => b,
        None => profile.ro_compat & EXT4_SHARED_BLOCKS != 0,
    };
    rebuild_generic(source, &profile, root, share, reserve_mb, true, compact || removal, store)
}

// ---------------------------------------------------------------------
// Conversions
// ---------------------------------------------------------------------
/// The image with a filesystem as another one, or in another container.
pub open spec fn converted<S: ByteSource>(
    image: Image<S>,
    kind: FsKind,
    target: FsTarget,
    sparse: bool,
    shared: bool,
    reserve_mb: u64,
    algo: Algo,
    build_time: u64,
) -> Result<Output, Fault> {
    let d = image.disk();
    match (kind, target) {
        (FsKind::Erofs, FsTarget::Ext4) => match editable(d) {
            Err(e) => Err(e),
            Ok(v) => match erofs_as_ext4(super_of(v), d, shared, reserve_mb) {
                Err(e) => Err(e),
                Ok(x) => Ok(Output::Stored(x, v.block_size as int)),
            },
        },
        (FsKind::Ext4, FsTarget::Erofs) => match ext4_editable(d) {
            Err(e) => Err(e),
            Ok(p) => match ext4_as_erofs(p, d, algo, build_time) {
                Err(e) => Err(e),
                Ok(x) => Ok(Output::Stored(x, p.block_size as int)),
            },
        },
        _ => match block_size_of(d, kind) {
            Err(e) => Err(e),
            Ok(n) => match contained(image, sparse, n as int) {
                Err(e) => Err(e),
                Ok(x) => Ok(Output::Sent(x)),
            },
        },
    }
}

/// Converts an image. With the delivery comes the number of special files
/// that were left out.
pub fn convert<S: ByteSource, T: ByteStore, O: ByteSink>(
    image: Image<S>,
    kind: FsKind,
    target: FsTarget,
    sparse: bool,
    shared: bool,
    reserve_mb: u64,
    algo: Algo,
    build_time: u64,
    store: &mut T,
    out: &mut O,
) -> (r: Result<(Delivery, u64), Error>)
    requires
        image.wf(),
    ensures
        final(store).failing() == old(store).failing(),
        final(out).full() == old(out).full(),
        delivered(
            image.faulty() || old(store).failing() || old(out).full(),
            match r {
                Ok((x, _)) => Ok(x),
                Err(e) => Err(e),
            },
            old(out).written(),
            final(out).written(),
            final(store).content(),
            converted(image, kind, target, sparse, shared, reserve_mb, algo, build_time),
        ),
        r matches Ok((_, n)) ==> n == (if kind == FsKind::Ext4 && target == FsTarget::Erofs {
            left_out(ext4_editable(image.disk())->Ok_0, image.disk())
        } else {
            0
        }),
        r is Ok && kind == FsKind::Ext4 && target == FsTarget::Erofs && algo != Algo::Off ==> ({
            let p = ext4_editable(image.disk())->Ok_0;
            packs_faithfully(
                Volume::Ext4 { sb: p, d: image.disk() },
                exported(ext4_tree(p, image.disk(), 2, ""@, 0)->Ok_0),
                p.block_size as int,
                1,
                algo,
            )
        }),
{
    match (kind, target) {
        (FsKind::Erofs, FsTarget::Ext4) => {
            let source = Source::open(image)?;
            proof {
                superblock_is_its_view(source.sb, source.sb);
            }
            erofs_to_ext4(&source, shared, reserve_mb, store)?;
            Ok((Delivery::Stored(source.sb.block_size), 0))
        },
        (FsKind::Ext4, FsTarget::Erofs) => {
            let mut source = Ext4Source::open(image)?;
            let block_size = source.profile.block_size;
            let dropped = ext4_to_erofs(&mut source, algo, build_time, store)?;
            Ok((Delivery::Stored(block_size), dropped))
        },
        _ => {
            let block_size = fs_block_size(&image, kind)?;
            convert_container(&image, sparse, block_size as usize, out)?;
            Ok((Delivery::Sent, 0))
        },
    }
}

} // verus!
