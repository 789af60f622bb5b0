//! What is known of an image as a whole.
use super::show::number_text;
use crate::fs::erofs;
use crate::fs::ext4;
use crate::image::{ByteSource, Image};
use crate::text::{dec, digit, push_numeral, push_text};
use vstd::prelude::*;

verus! {

/// Hexadecimal digits, with zeros in front.
pub open spec fn padded_hex(n: int, width: int) -> Seq<char>
    decreases width,
{
    if width <= 0 {
        Seq::empty()
    } else {
        padded_hex(n / 16, width - 1).push(digit(n % 16))
    }
}

/// A line of information.
pub open spec fn info_line(key: Seq<char>, value: Seq<char>) -> Seq<char> {
    key + value + "\n"@
}

/// `true` or `false`.
pub open spec fn truth(b: bool) -> Seq<char> {
    if b {
        "true"@
    } else {
        "false"@
    }
}

/// The name of a container.
pub open spec fn container_text<S: ByteSource>(image: Image<S>) -> Seq<char> {
    if image is Sparse {
        "android-sparse"@
    } else {
        "raw"@
    }
}

/// The lines of a sparse container.
pub open spec fn sparse_lines<S: ByteSource>(image: Image<S>) -> Seq<char> {
    match image {
        Image::Raw { .. } => Seq::empty(),
        Image::Sparse { sparse, .. } => info_line(
            "sparse_block_size="@,
            dec(sparse@.block_size),
        ) + info_line("sparse_chunks="@, dec(sparse@.chunks.len() as int)),
    }
}

/// What is known of an image with ext4.
pub open spec fn ext4_info<S: ByteSource>(sb: ext4::Superblock, image: Image<S>) -> Seq<char> {
    info_line("format="@, container_text(image)) + info_line(
        "size="@,
        dec(image.disk().len() as int),
    ) + "filesystem=ext4\n"@ + info_line("block_size="@, dec(sb.block_size as int)) + info_line(
        "inode_size="@,
        dec(sb.inode_size as int),
    ) + info_line("block_count="@, dec(sb.block_count as int)) + info_line(
        "feature_compat=0x"@,
        padded_hex(sb.compat as int, 8),
    ) + info_line("feature_incompat=0x"@, padded_hex(sb.incompat as int, 8)) + info_line(
        "feature_ro_compat=0x"@,
        padded_hex(sb.ro_compat as int, 8),
    ) + info_line("feature_extents="@, truth(sb.incompat & ext4::EXT4_EXTENTS != 0)) + info_line(
        "feature_64bit="@,
        truth(sb.incompat & ext4::EXT4_64BIT != 0),
    ) + info_line(
        "feature_metadata_csum="@,
        truth(sb.ro_compat & ext4::EXT4_METADATA_CSUM != 0),
    ) + info_line(
        "feature_shared_blocks="@,
        truth(sb.ro_compat & ext4::EXT4_SHARED_BLOCKS != 0),
    ) + sparse_lines(image)
}

/// What is known of an image with EROFS.
pub open spec fn erofs_info<S: ByteSource>(sb: erofs::Superblock, image: Image<S>) -> Seq<char> {
    info_line("format="@, container_text(image)) + "filesystem=erofs\n"@ + info_line(
        "block_size="@,
        dec(sb.block_size as int),
    ) + info_line("root_nid="@, dec(sb.root_nid as int)) + info_line(
        "feature_incompat=0x"@,
        padded_hex(sb.feature_incompat as int, 8),
    )
}

fn hex_text(n: u32, width: u32) -> (s: String)
    ensures
        s@ == padded_hex(n as int, width as int),
    decreases width,
{
    if width == 0 {
        let s: String = "".to_owned();
        proof {
            reveal_strlit("");
            assert(s@ =~= Seq::empty());
        }
        return s;
    }
    let mut s = hex_text(n / 16, width - 1);
    let ghost before = s@;
    push_numeral(&mut s, (n % 16) as u64, 16);
    proof {
        assert(crate::text::numeral((n % 16) as nat, 16) =~= seq![digit((n % 16) as int)]);
        assert(s@ =~= before.push(digit(n as int % 16)));
    }
    s
}

fn push_line(s: &mut String, key: &str, value: &str)
    ensures
        final(s)@ == old(s)@ + info_line(key@, value@),
{
    let ghost before = s@;
    push_text(s, key);
    push_text(s, value);
    push_text(s, "\n");
    assert(s@ =~= before + (key@ + value@ + "\n"@));
}

fn push_truth(s: &mut String, key: &str, b: bool)
    ensures
        final(s)@ == old(s)@ + info_line(key@, truth(b)),
{
    if b {
        push_line(s, key, "true");
    } else {
        push_line(s, key, "false");
    }
}

fn push_count(s: &mut String, key: &str, n: u64)
    ensures
        final(s)@ == old(s)@ + info_line(key@, dec(n as int)),
{
    let text = number_text(n);
    push_line(s, key, text.as_str());
}

fn push_flags(s: &mut String, key: &str, n: u32)
    ensures
        final(s)@ == old(s)@ + info_line(key@, padded_hex(n as int, 8)),
{
    let text = hex_text(n, 8);
    push_line(s, key, text.as_str());
}

fn push_sparse<S: ByteSource>(s: &mut String, image: &Image<S>)
    ensures
        final(s)@ == old(s)@ + sparse_lines(*image),
{
    let ghost before = s@;
    match image.sparse_info() {
        None => {
            assert(before + sparse_lines(*image) =~= before);
        },
        Some((block_size, chunks)) => {
            push_count(s, "sparse_block_size=", block_size);
            push_count(s, "sparse_chunks=", chunks as u64);
            assert(s@ =~= before + sparse_lines(*image));
        },
    }
}

/// Builds the text on an image with ext4.
pub fn build_ext4_info<S: ByteSource>(sb: &ext4::Superblock, image: &Image<S>) -> (s: String)
    requires
        image.wf(),
    ensures
        s@ == ext4_info(*sb, *image),
{
    let mut s: String = "".to_owned();
    let ghost empty = s@;
    push_line(&mut s, "format=", image.container_name());
    proof {
        reveal_strlit("");
        assert(s@ =~= info_line("format="@, container_text(*image)));
    }
    push_count(&mut s, "size=", image.size());
    push_text(&mut s, "filesystem=ext4\n");
    push_count(&mut s, "block_size=", sb.block_size);
    push_count(&mut s, "inode_size=", sb.inode_size as u64);
    push_count(&mut s, "block_count=", sb.block_count);
    push_flags(&mut s, "feature_compat=0x", sb.compat);
    push_flags(&mut s, "feature_incompat=0x", sb.incompat);
    push_flags(&mut s, "feature_ro_compat=0x", sb.ro_compat);
    push_truth(&mut s, "feature_extents=", sb.incompat & ext4::EXT4_EXTENTS != 0);
    push_truth(&mut s, "feature_64bit=", sb.incompat & ext4::EXT4_64BIT != 0);
    push_truth(&mut s, "feature_metadata_csum=", sb.ro_compat & ext4::EXT4_METADATA_CSUM != 0);
    push_truth(&mut s, "feature_shared_blocks=", sb.ro_compat & ext4::EXT4_SHARED_BLOCKS != 0);
    push_sparse(&mut s, image);
    s
}

/// Builds the text on an image with EROFS.
pub fn build_erofs_info<S: ByteSource>(sb: &erofs::Superblock, image: &Image<S>) -> (s: String)
    ensures
        s@ == erofs_info(*sb, *image),
{
    let mut s: String = "".to_owned();
    push_line(&mut s, "format=", image.container_name());
    proof {
        reveal_strlit("");
        assert(s@ =~= info_line("format="@, container_text(*image)));
    }
    push_text(&mut s, "filesystem=erofs\n");
    push_count(&mut s, "block_size=", sb.block_size);
    push_count(&mut s, "root_nid=", sb.root_nid);
    push_flags(&mut s, "feature_incompat=0x", sb.feature_incompat);
    s
}

} // verus!
