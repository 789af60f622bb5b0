//! EROFS images that are rebuilt with compressed files: what was written
//! reads back.
use super::blocks::Volume;
use super::image_laws::contexts_fit;
use super::node::NodeView;
use super::packed::{indexable, packs_faithfully, repacked_image};
use super::packed_images::packed_images_read_back;
use super::read_back::{readable, regained};
use super::rebuild::prepared;
use super::source::tree_of;
use crate::error::Fault;
use crate::fs::erofs::codec::Algo;
use crate::fs::erofs::{superblock, SuperView, Superblock};
use vstd::arithmetic::power2::pow2;
use vstd::prelude::*;

verus! {

/// A changed tree of an EROFS image that is rebuilt with compressed files
/// reads back, with the superblock's features, label of the volume and place
/// of the inodes kept, and with the content that stayed as the old image
/// serves it.
pub proof fn packed_rebuilds_read_back(
    before: Superblock,
    content: Seq<u8>,
    root: NodeView,
    algo: Algo,
    build_time: u64,
    sb: Superblock,
    name: Seq<char>,
)
    requires
        before.wf(),
        4096 <= before.block_size <= 65536,
        root.is_dir(),
        readable(prepared(root, before.block_size as int, indexable(before.block_size as int)), 0),
        contexts_fit(
            prepared(root, before.block_size as int, indexable(before.block_size as int)),
            before.block_size as int,
            before.meta_blkaddr as int,
        ),
        packs_faithfully(
            (Volume::Erofs { sb: before, d: content }),
            root,
            before.block_size as int,
            before.meta_blkaddr as int,
            algo,
        ),
        repacked_image(before, content, root, algo, build_time) is Ok,
    ensures
        ({
            let d = repacked_image(before, content, root, algo, build_time)->Ok_0;
            &&& superblock(d) is Ok
            &&& superblock(d) == Ok::<SuperView, Fault>(sb@) ==> {
                &&& sb.block_size == before.block_size
                &&& sb.meta_blkaddr == before.meta_blkaddr
                &&& sb.feature_compat == before.feature_compat & !1u32
                &&& sb.feature_ro_compat == before.feature_ro_compat
                &&& sb.build_time == build_time
                &&& sb.volume@ == before.volume@
                &&& tree_of(sb, d, sb.root_nid, name, 0) matches Ok(r) && regained(
                    sb,
                    d,
                    Volume::Erofs { sb: before, d: content },
                    r,
                    prepared(root, before.block_size as int, indexable(before.block_size as int)),
                )
            }
        }),
{
    let bits = choose|bits: nat| 9 <= bits <= 20 && before.block_size == #[trigger] pow2(bits);
    vstd::arithmetic::power2::lemma2_to64();
    if bits > 16 {
        vstd::arithmetic::power2::lemma_pow2_strictly_increases(16, bits);
    }
    packed_images_read_back(
        Volume::Erofs { sb: before, d: content },
        root,
        bits,
        before.meta_blkaddr as int,
        algo,
        before.feature_compat & !1u32,
        build_time,
        before.volume@,
        before.feature_ro_compat,
        sb,
        name,
    );
}

} // verus!
