//! Filesystem backends over the shared [`crate::image::Image`].
pub mod erofs;
pub mod ext4;

use crate::error::{fail, told, Error, Fault};
use crate::image::{ByteSource, Image};
use crate::text::opt_text;
use vstd::prelude::*;

verus! {

/// Directory listing entry.
pub struct DirEntry {
    pub name: String,
    /// Raw directory-entry file type byte (2 is a directory). Traversal and
    /// markers follow this byte.
    pub file_type: u8,
    pub mode: u16,
    pub uid: u32,
    pub gid: u32,
    pub size: u64,
    pub context: Option<String>,
}

/// The mathematical counterpart of [`DirEntry`].
#[verifier::ext_equal]
pub struct EntryView {
    pub name: Seq<char>,
    pub file_type: u8,
    pub mode: u16,
    pub uid: u32,
    pub gid: u32,
    pub size: u64,
    pub context: Option<Seq<char>>,
}

impl View for DirEntry {
    type V = EntryView;

    open spec fn view(&self) -> EntryView {
        EntryView {
            name: self.name@,
            file_type: self.file_type,
            mode: self.mode,
            uid: self.uid,
            gid: self.gid,
            size: self.size,
            context: opt_text(self.context),
        }
    }
}

/// A kind of filesystem.
#[derive(Debug, Clone, Copy, PartialEq, Eq)]
pub enum FsKind {
    Erofs,
    Ext4,
}

impl View for FsKind {
    type V = FsKind;

    open spec fn view(&self) -> FsKind {
        *self
    }
}

/// The filesystem that the image `d` holds: EROFS is tried first.
pub open spec fn probed_fs(d: Seq<u8>) -> Result<FsKind, Fault> {
    match erofs::probed(d) {
        Err(e) => Err(e),
        Ok(true) => Ok(FsKind::Erofs),
        Ok(false) => match ext4::probed(d) {
            Err(e) => Err(e),
            Ok(true) => Ok(FsKind::Ext4),
            Ok(false) => fail("unsupported filesystem format"@),
        },
    }
}

/// Probe order: EROFS first, then ext4.
pub fn probe_fs<S: ByteSource>(image: &Image<S>) -> (r: Result<FsKind, Error>)
    requires
        image.wf(),
    ensures
        told(image.faulty(), r, probed_fs(image.disk())),
{
    if erofs::probe(image)? {
        return Ok(FsKind::Erofs);
    }
    if ext4::probe(image)? {
        return Ok(FsKind::Ext4);
    }
    Err(Error::invalid("unsupported filesystem format"))
}

} // verus!
