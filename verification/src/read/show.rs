//! Showing what an image holds.
use super::cli::MetadataOptions;
use crate::error::{fail, told, Error, Fault};
use crate::fs::erofs;
use crate::fs::ext4;
use crate::fs::{probe_fs, probed_fs, DirEntry, EntryView, FsKind};
use crate::image::{ByteSink, ByteSource, Image};
use crate::text::{
    chars_of, dec, opt_text, parts_of, path_parts, push_numeral, push_text, same,
    string_of, texts, with_text,
};
use crate::util::{
    content_type, detect_content_type, file_type, glob, human_size, kind_name, matches_pattern,
    numeric_permissions, octal, sample_size, shown_size, symbolic, symbolic_permissions, SAMPLE_SIZE,
};
use vstd::prelude::*;
use vstd::utf8::encode_utf8;

verus! {

/// The deepest directory that is looked into.
pub const MAX_DEPTH: u32 = 512;

// ---------------------------------------------------------------------
// Filesystems
// ---------------------------------------------------------------------
/// The filesystem of an image.
pub enum Filesystem {
    Erofs(erofs::Superblock),
    Ext4(ext4::Superblock),
}

/// An entry of a directory.
pub struct Item {
    pub id: u64,
    pub file_type: u8,
    pub name: String,
}

/// The mathematical counterpart of [`Item`].
#[verifier::ext_equal]
pub struct ItemView {
    pub id: u64,
    pub file_type: u8,
    pub name: Seq<char>,
}

impl View for Item {
    type V = ItemView;

    open spec fn view(&self) -> ItemView {
        ItemView { id: self.id, file_type: self.file_type, name: self.name@ }
    }
}

/// The views of entries.
pub open spec fn item_views(s: Seq<Item>) -> Seq<ItemView> {
    s.map_values(|e: Item| e@)
}

impl Filesystem {
    /// The superblock is sound.
    pub open spec fn wf(self) -> bool {
        match self {
            Filesystem::Erofs(sb) => sb.wf(),
            Filesystem::Ext4(sb) => sb.wf(),
        }
    }

    /// The root directory.
    pub open spec fn root(self) -> u64 {
        match self {
            Filesystem::Erofs(sb) => sb.root_nid,
            Filesystem::Ext4(_) => 2,
        }
    }

    /// The entries of a directory.
    pub open spec fn entries(self, d: Seq<u8>, id: u64) -> Result<Seq<ItemView>, Fault> {
        match self {
            Filesystem::Erofs(sb) => match erofs::dir::entries_of(sb, d, id) {
                Err(e) => Err(e),
                Ok(s) => Ok(
                    s.map_values(
                        |e: erofs::dir::RawView|
                            ItemView { id: e.nid, file_type: e.file_type, name: e.name },
                    ),
                ),
            },
            Filesystem::Ext4(sb) => match ext4::dir::entries_of(sb, d, (id as u32) as int) {
                Err(e) => Err(e),
                Ok(s) => Ok(
                    s.map_values(
                        |e: ext4::dir::RawView|
                            ItemView { id: e.inode as u64, file_type: e.file_type, name: e.name },
                    ),
                ),
            },
        }
    }

    /// The mode of a file.
    pub open spec fn mode(self, d: Seq<u8>, id: u64) -> Result<u16, Fault> {
        match self {
            Filesystem::Erofs(sb) => match erofs::inode::inode_of(sb, d, id) {
                Err(e) => Err(e),
                Ok(x) => Ok(x.mode),
            },
            Filesystem::Ext4(sb) => match ext4::inode::inode_of(sb, d, (id as u32) as int) {
                Err(e) => Err(e),
                Ok(x) => Ok(x.mode),
            },
        }
    }

    /// What is known of an entry.
    pub open spec fn entry(self, d: Seq<u8>, item: ItemView, context: bool) -> Result<
        EntryView,
        Fault,
    > {
        match self {
            Filesystem::Erofs(sb) => match erofs::dir::stat_of(
                sb,
                d,
                erofs::dir::RawView { nid: item.id, file_type: item.file_type, name: item.name },
                context,
            ) {
                Err(e) => Err(e),
                Ok((x, _)) => Ok(x),
            },
            Filesystem::Ext4(sb) => match ext4::dir::stat_of(
                sb,
                d,
                ext4::dir::RawView {
                    inode: item.id as u32,
                    file_type: item.file_type,
                    name: item.name,
                },
            ) {
                Err(e) => Err(e),
                Ok((x, _)) => Ok(x),
            },
        }
    }

    /// The start of a file.
    pub open spec fn sample(self, d: Seq<u8>, id: u64) -> Result<Seq<u8>, Fault> {
        match self {
            Filesystem::Erofs(sb) => match erofs::inode::inode_of(sb, d, id) {
                Err(e) => Err(e),
                Ok(x) => erofs::inode::prefix_of(sb, d, x, SAMPLE_SIZE as int),
            },
            Filesystem::Ext4(sb) => match ext4::inode::inode_of(sb, d, (id as u32) as int) {
                Err(e) => Err(e),
                Ok(x) => ext4::inode::prefix_of(d, sb.block_size as int, x, SAMPLE_SIZE as int),
            },
        }
    }

    /// The content of a file.
    pub open spec fn content(self, d: Seq<u8>, id: u64) -> Result<Seq<u8>, Fault> {
        match self {
            Filesystem::Erofs(sb) => match erofs::inode::inode_of(sb, d, id) {
                Err(e) => Err(e),
                Ok(x) => erofs::inode::streamed(sb, d, x),
            },
            Filesystem::Ext4(sb) => match ext4::inode::inode_of(sb, d, (id as u32) as int) {
                Err(e) => Err(e),
                Ok(x) => ext4::inode::streamed(d, sb.block_size as int, x),
            },
        }
    }
}

/// A filesystem is the one of an image.
pub open spec fn is_filesystem_of(fs: Filesystem, d: Seq<u8>) -> bool {
    match fs {
        Filesystem::Erofs(sb) => {
            &&& probed_fs(d) == Ok::<FsKind, Fault>(FsKind::Erofs)
            &&& erofs::superblock(d) == Ok::<erofs::SuperView, Fault>(sb@)
        },
        Filesystem::Ext4(sb) => {
            &&& probed_fs(d) == Ok::<FsKind, Fault>(FsKind::Ext4)
            &&& ext4::superblock(d) == Ok::<ext4::Superblock, Fault>(sb)
        },
    }
}

/// Why an image has no filesystem that can be read.
pub open spec fn filesystem_fault(d: Seq<u8>) -> Option<Fault> {
    match probed_fs(d) {
        Err(e) => Some(e),
        Ok(FsKind::Erofs) => match erofs::superblock(d) {
            Err(e) => Some(e),
            Ok(_) => None,
        },
        Ok(FsKind::Ext4) => match ext4::superblock(d) {
            Err(e) => Some(e),
            Ok(_) => None,
        },
    }
}

/// Whether a mode is taken for that of a directory.
pub open spec fn dir_mode(mode: u16) -> bool {
    mode & 0x4000 != 0
}

impl Filesystem {
    /// Reads the superblock.
    pub fn open<S: ByteSource>(image: &Image<S>) -> (r: Result<Filesystem, Error>)
        requires
            image.wf(),
        ensures
            match r {
                Ok(fs) => fs.wf() && is_filesystem_of(fs, image.disk()),
                Err(e) => (e is Io && image.faulty()) || filesystem_fault(image.disk()) == Some(
                    e@,
                ),
            },
    {
        match probe_fs(image)? {
            FsKind::Erofs => Ok(Filesystem::Erofs(erofs::Superblock::read(image)?)),
            FsKind::Ext4 => Ok(Filesystem::Ext4(ext4::Superblock::read(image)?)),
        }
    }

    /// Lists a directory.
    pub fn list<S: ByteSource>(&self, image: &Image<S>, id: u64) -> (r: Result<Vec<Item>, Error>)
        requires
            image.wf(),
            self.wf(),
        ensures
            match r {
                Ok(v) => self.entries(image.disk(), id) == Ok::<Seq<ItemView>, Fault>(
                    item_views(v@),
                ),
                Err(e) => self.entries(image.disk(), id) == Err::<Seq<ItemView>, Fault>(e@) || (
                e is Io && image.faulty()),
            },
    {
        match self {
            Filesystem::Erofs(sb) => {
                let raw = erofs::dir::read(sb, image, id)?;
                let out = list_erofs(&raw);
                proof {
                    let s = erofs::dir::raw_views(raw@);
                    assert(item_views(out@) =~= s.map_values(
                        |e: erofs::dir::RawView|
                            ItemView { id: e.nid, file_type: e.file_type, name: e.name },
                    ));
                }
                Ok(out)
            },
            Filesystem::Ext4(sb) => {
                let raw = ext4::dir::read(sb, image, id as u32)?;
                let out = list_ext4(&raw);
                proof {
                    let s = ext4::dir::raw_views(raw@);
                    assert(item_views(out@) =~= s.map_values(
                        |e: ext4::dir::RawView|
                            ItemView { id: e.inode as u64, file_type: e.file_type, name: e.name },
                    ));
                }
                Ok(out)
            },
        }
    }

    /// Reads the mode of a node.
    pub fn read_mode<S: ByteSource>(&self, image: &Image<S>, id: u64) -> (r: Result<u16, Error>)
        requires
            image.wf(),
            self.wf(),
        ensures
            match r {
                Ok(m) => self.mode(image.disk(), id) == Ok::<u16, Fault>(m),
                Err(e) => self.mode(image.disk(), id) == Err::<u16, Fault>(e@) || (e is Io
                    && image.faulty()),
            },
    {
        match self {
            Filesystem::Erofs(sb) => {
                let x = erofs::inode::read(sb, image, id)?;
                Ok(x.mode)
            },
            Filesystem::Ext4(sb) => {
                let x = ext4::inode::read(sb, image, id as u32)?;
                Ok(x.mode)
            },
        }
    }

    /// Reads the start of a file.
    pub fn read_sample<S: ByteSource>(&self, image: &Image<S>, id: u64) -> (r: Result<Vec<u8>, Error>)
        requires
            image.wf(),
            self.wf(),
        ensures
            told(image.faulty(), r, self.sample(image.disk(), id)),
    {
        match self {
            Filesystem::Erofs(sb) => {
                let x = erofs::inode::read(sb, image, id)?;
                erofs::inode::read_prefix(sb, image, &x, sample_size() as u64)
            },
            Filesystem::Ext4(sb) => {
                let x = ext4::inode::read(sb, image, id as u32)?;
                ext4::inode::read_prefix(sb, image, &x, sample_size() as u64)
            },
        }
    }

    /// Writes the content of a file out.
    pub fn stream<S: ByteSource, O: ByteSink>(&self, image: &Image<S>, id: u64, out: &mut O) -> (r:
        Result<(), Error>)
        requires
            image.wf(),
            self.wf(),
        ensures
            final(out).full() == old(out).full(),
            sent(
                image.faulty() || old(out).full(),
                r,
                old(out).written(),
                final(out).written(),
                self.content(image.disk(), id),
            ),
    {
        match self {
            Filesystem::Erofs(sb) => {
                let x = erofs::inode::read(sb, image, id)?;
                erofs::inode::read_data_streaming(sb, image, &x, out)
            },
            Filesystem::Ext4(sb) => {
                let x = ext4::inode::read(sb, image, id as u32)?;
                ext4::inode::write_data(sb, image, &x, out)
            },
        }
    }
}

/// What was expected was written, or writing failed.
pub open spec fn sent(
    unreliable: bool,
    r: Result<(), Error>,
    before: Seq<u8>,
    written: Seq<u8>,
    expected: Result<Seq<u8>, Fault>,
) -> bool {
    match r {
        Ok(_) => expected matches Ok(data) && written == before + data,
        Err(e) => expected == Err::<Seq<u8>, Fault>(e@) || (e is Io && unreliable),
    }
}

fn copy_text(s: &String) -> (t: String)
    ensures
        t@ == s@,
{
    let mut t: String = "".to_owned();
    push_text(&mut t, s.as_str());
    proof {
        reveal_strlit("");
        assert(t@ =~= s@);
    }
    t
}

fn list_erofs(raw: &Vec<erofs::dir::DirEntryRaw>) -> (out: Vec<Item>)
    ensures
        out@.len() == raw@.len(),
        forall|k: int|
            0 <= k < raw@.len() ==> (#[trigger] out@[k])@ == (ItemView {
                id: raw@[k].nid,
                file_type: raw@[k].file_type,
                name: raw@[k].name@,
            }),
{
    let mut out: Vec<Item> = Vec::new();
    let mut i: usize = 0;
    while i < raw.len()
        invariant
            i <= raw@.len(),
            out@.len() == i,
            forall|k: int|
                0 <= k < i ==> (#[trigger] out@[k])@ == (ItemView {
                    id: raw@[k].nid,
                    file_type: raw@[k].file_type,
                    name: raw@[k].name@,
                }),
        decreases raw.len() - i,
    {
        let e = &raw[i];
        out.push(Item { id: e.nid, file_type: e.file_type, name: copy_text(&e.name) });
        i += 1;
    }
    out
}

fn list_ext4(raw: &Vec<ext4::dir::DirEntryRaw>) -> (out: Vec<Item>)
    ensures
        out@.len() == raw@.len(),
        forall|k: int|
            0 <= k < raw@.len() ==> (#[trigger] out@[k])@ == (ItemView {
                id: raw@[k].inode as u64,
                file_type: raw@[k].file_type,
                name: raw@[k].name@,
            }),
{
    let mut out: Vec<Item> = Vec::new();
    let mut i: usize = 0;
    while i < raw.len()
        invariant
            i <= raw@.len(),
            out@.len() == i,
            forall|k: int|
                0 <= k < i ==> (#[trigger] out@[k])@ == (ItemView {
                    id: raw@[k].inode as u64,
                    file_type: raw@[k].file_type,
                    name: raw@[k].name@,
                }),
        decreases raw.len() - i,
    {
        let e = &raw[i];
        out.push(Item { id: e.inode as u64, file_type: e.file_type, name: copy_text(&e.name) });
        i += 1;
    }
    out
}

impl Filesystem {
    fn stat<S: ByteSource>(&self, image: &Image<S>, item: &Item, context: bool) -> (r: Result<
        DirEntry,
        Error,
    >)
        requires
            image.wf(),
            self.wf(),
        ensures
            told(image.faulty(), r, self.entry(image.disk(), item@, context)),
    {
        match self {
            Filesystem::Erofs(sb) => {
                let raw = erofs::dir::DirEntryRaw {
                    nid: item.id,
                    file_type: item.file_type,
                    name: copy_text(&item.name),
                };
                let (e, _) = erofs::dir::stat(sb, image, &raw, context)?;
                Ok(e)
            },
            Filesystem::Ext4(sb) => {
                let raw = ext4::dir::DirEntryRaw {
                    inode: item.id as u32,
                    file_type: item.file_type,
                    name: copy_text(&item.name),
                };
                let (e, _) = ext4::dir::stat(sb, image, &raw)?;
                Ok(e)
            },
        }
    }
}

// ---------------------------------------------------------------------
// Lines
// ---------------------------------------------------------------------
/// A field of a line, where it is shown.
pub open spec fn field(shown: bool, name: Seq<char>, value: Seq<char>) -> Seq<char> {
    if shown {
        name + value + " "@
    } else {
        Seq::empty()
    }
}

/// The line for an entry.
pub open spec fn entry_line(o: MetadataOptions, e: EntryView, sample: Seq<u8>, name: Seq<char>) -> Seq<
    char,
> {
    field(o.file_type, "type="@, kind_name(e.mode)) + field(
        o.content_type,
        "content_type="@,
        content_type(sample),
    ) + field(o.owner, "owner="@, dec(e.uid as int) + ":"@ + dec(e.gid as int)) + field(
        o.permissions,
        "permissions="@,
        symbolic(e.mode),
    ) + field(o.numeric_permissions, "mode="@, octal(e.mode)) + field(
        o.size,
        "size="@,
        dec(e.size as int),
    ) + field(o.human_size, "human_size="@, shown_size(e.size)) + field(
        o.context,
        "context="@,
        match e.context {
            Some(c) => c,
            None => "-"@,
        },
    ) + name + "\n"@
}

/// The line for an entry that is shown with metadata.
pub open spec fn described(
    fs: Filesystem,
    d: Seq<u8>,
    item: ItemView,
    name: Seq<char>,
    o: MetadataOptions,
) -> Result<Seq<char>, Fault> {
    match fs.entry(d, item, o.context) {
        Err(e) => Err(e),
        Ok(e) => match if o.content_type {
            fs.sample(d, item.id)
        } else {
            Ok(Seq::empty())
        } {
            Err(e) => Err(e),
            Ok(sample) => Ok(entry_line(o, e, sample, name)),
        },
    }
}

fn push_field(s: &mut String, name: &str, value: &str)
    ensures
        final(s)@ == old(s)@ + field(true, name@, value@),
{
    let ghost before = s@;
    push_text(s, name);
    push_text(s, value);
    push_text(s, " ");
    assert(s@ =~= before + (name@ + value@ + " "@));
}

/// A field that is not shown adds nothing.
proof fn field_absent(s: Seq<char>, name: Seq<char>, value: Seq<char>)
    ensures
        s + field(false, name, value) == s,
{
    assert(s + field(false, name, value) =~= s);
}

proof fn fields_join(
    s: Seq<char>,
    a: Seq<char>,
    b: Seq<char>,
    c: Seq<char>,
    d: Seq<char>,
    e: Seq<char>,
)
    ensures
        s + a + b + c + d + e == s + (a + b + c + d + e),
{
    assert(s + a + b + c + d + e =~= s + (a + b + c + d + e));
}

fn owner_text(uid: u32, gid: u32) -> (s: String)
    ensures
        s@ == dec(uid as int) + ":"@ + dec(gid as int),
{
    let mut s: String = "".to_owned();
    push_numeral(&mut s, uid as u64, 10);
    push_text(&mut s, ":");
    push_numeral(&mut s, gid as u64, 10);
    proof {
        reveal_strlit("");
        assert(s@ =~= dec(uid as int) + ":"@ + dec(gid as int));
    }
    s
}

/// A number in decimal.
pub fn number_text(n: u64) -> (s: String)
    ensures
        s@ == dec(n as int),
{
    let mut s: String = "".to_owned();
    push_numeral(&mut s, n, 10);
    proof {
        reveal_strlit("");
        assert(s@ =~= dec(n as int));
    }
    s
}

/// Adds the fields that come before the size.
fn push_first_fields(s: &mut String, o: MetadataOptions, e: &DirEntry, sample: &Vec<u8>)
    ensures
        final(s)@ == old(s)@ + (field(o.file_type, "type="@, kind_name(e@.mode)) + field(
            o.content_type,
            "content_type="@,
            content_type(sample@),
        ) + field(o.owner, "owner="@, dec(e@.uid as int) + ":"@ + dec(e@.gid as int)) + field(
            o.permissions,
            "permissions="@,
            symbolic(e@.mode),
        ) + field(o.numeric_permissions, "mode="@, octal(e@.mode))),
{
    let ghost s0 = s@;
    let ghost a = field(o.file_type, "type="@, kind_name(e@.mode));
    let ghost b = field(o.content_type, "content_type="@, content_type(sample@));
    let ghost c = field(o.owner, "owner="@, dec(e@.uid as int) + ":"@ + dec(e@.gid as int));
    let ghost d = field(o.permissions, "permissions="@, symbolic(e@.mode));
    let ghost f = field(o.numeric_permissions, "mode="@, octal(e@.mode));
    proof {
        field_absent(s0, "type="@, kind_name(e@.mode));
        field_absent(s0 + a, "content_type="@, content_type(sample@));
        field_absent(
            s0 + a + b,
            "owner="@,
            dec(e@.uid as int) + ":"@ + dec(e@.gid as int),
        );
        field_absent(s0 + a + b + c, "permissions="@, symbolic(e@.mode));
        field_absent(s0 + a + b + c + d, "mode="@, octal(e@.mode));
        fields_join(s0, a, b, c, d, f);
    }
    if o.file_type {
        push_field(s, "type=", file_type(e.mode));
    }
    if o.content_type {
        let kind = detect_content_type(sample);
        push_field(s, "content_type=", kind.as_str());
    }
    if o.owner {
        let owner = owner_text(e.uid, e.gid);
        push_field(s, "owner=", owner.as_str());
    }
    if o.permissions {
        let text = symbolic_permissions(e.mode);
        push_field(s, "permissions=", text.as_str());
    }
    if o.numeric_permissions {
        let text = numeric_permissions(e.mode);
        push_field(s, "mode=", text.as_str());
    }
}

/// Adds the fields from the size on, and the name.
fn push_last_fields(s: &mut String, o: MetadataOptions, e: &DirEntry, name: &str)
    ensures
        final(s)@ == old(s)@ + (field(o.size, "size="@, dec(e@.size as int)) + field(
            o.human_size,
            "human_size="@,
            shown_size(e@.size),
        ) + field(
            o.context,
            "context="@,
            match e@.context {
                Some(c) => c,
                None => "-"@,
            },
        ) + name@ + "\n"@),
{
    let ghost s0 = s@;
    let ghost shown = match e@.context {
        Some(c) => c,
        None => "-"@,
    };
    let ghost a = field(o.size, "size="@, dec(e@.size as int));
    let ghost b = field(o.human_size, "human_size="@, shown_size(e@.size));
    let ghost c = field(o.context, "context="@, shown);
    proof {
        field_absent(s0, "size="@, dec(e@.size as int));
        field_absent(s0 + a, "human_size="@, shown_size(e@.size));
        field_absent(s0 + a + b, "context="@, shown);
        fields_join(s0, a, b, c, name@, "\n"@);
    }
    if o.size {
        let text = number_text(e.size);
        push_field(s, "size=", text.as_str());
    }
    if o.human_size {
        let text = human_size(e.size);
        push_field(s, "human_size=", text.as_str());
    }
    if o.context {
        match &e.context {
            Some(c) => push_field(s, "context=", c.as_str()),
            None => push_field(s, "context=", "-"),
        }
    }
    push_text(s, name);
    push_text(s, "\n");
}

/// Builds the line for an entry.
fn build_line(o: MetadataOptions, e: &DirEntry, sample: &Vec<u8>, name: &str) -> (s: String)
    ensures
        s@ == entry_line(o, e@, sample@, name@),
{
    let mut s: String = "".to_owned();
    push_first_fields(&mut s, o, e, sample);
    push_last_fields(&mut s, o, e, name);
    proof {
        reveal_strlit("");
        let shown = match e@.context {
            Some(c) => c,
            None => "-"@,
        };
        line_joins(
            field(o.file_type, "type="@, kind_name(e@.mode)),
            field(o.content_type, "content_type="@, content_type(sample@)),
            field(o.owner, "owner="@, dec(e@.uid as int) + ":"@ + dec(e@.gid as int)),
            field(o.permissions, "permissions="@, symbolic(e@.mode)),
            field(o.numeric_permissions, "mode="@, octal(e@.mode)),
            field(o.size, "size="@, dec(e@.size as int)),
            field(o.human_size, "human_size="@, shown_size(e@.size)),
            field(o.context, "context="@, shown),
            name@,
            "\n"@,
        );
        assert(""@ =~= Seq::empty());
    }
    s
}

proof fn line_joins(
    a: Seq<char>,
    b: Seq<char>,
    c: Seq<char>,
    d: Seq<char>,
    e: Seq<char>,
    f: Seq<char>,
    g: Seq<char>,
    h: Seq<char>,
    i: Seq<char>,
    j: Seq<char>,
)
    ensures
        Seq::<char>::empty() + (a + b + c + d + e) + (f + g + h + i + j) == a + b + c + d + e + f
            + g + h + i + j,
{
    assert(Seq::<char>::empty() + (a + b + c + d + e) + (f + g + h + i + j) =~= a + b + c + d + e
        + f + g + h + i + j);
}

/// Builds the line for an entry that is shown with metadata.
fn describe<S: ByteSource>(
    fs: &Filesystem,
    image: &Image<S>,
    item: &Item,
    name: &str,
    o: MetadataOptions,
) -> (r: Result<String, Error>)
    requires
        image.wf(),
        fs.wf(),
    ensures
        told(image.faulty(), r, described(*fs, image.disk(), item@, name@, o)),
{
    let e = fs.stat(image, item, o.context)?;
    let sample = if o.content_type {
        fs.read_sample(image, item.id)?
    } else {
        Vec::new()
    };
    assert(!o.content_type ==> sample@ =~= Seq::empty());
    Ok(build_line(o, &e, &sample, name))
}

// ---------------------------------------------------------------------
// Paths
// ---------------------------------------------------------------------
/// The text without the slashes in front.
pub open spec fn without_front(s: Seq<char>) -> Seq<char>
    decreases s.len(),
{
    if s.len() > 0 && s[0] == '/' {
        without_front(s.skip(1))
    } else {
        s
    }
}

/// The text without the slashes at the end.
pub open spec fn without_back(s: Seq<char>) -> Seq<char>
    decreases s.len(),
{
    if s.len() > 0 && s.last() == '/' {
        without_back(s.drop_last())
    } else {
        s
    }
}

/// The path of an entry of a directory.
pub open spec fn entry_path(parent: Seq<char>, name: Seq<char>) -> Seq<char> {
    if parent == "/"@ {
        "/"@ + name
    } else {
        "/"@ + without_back(without_front(parent)) + "/"@ + name
    }
}

fn trim_slashes(s: &str) -> (t: String)
    ensures
        t@ == without_back(without_front(s@)),
{
    let v = chars_of(s);
    let mut from: usize = 0;
    assert(v@.skip(0) =~= v@);
    while from < v.len() && v[from] == '/'
        invariant
            from <= v@.len(),
            v@ == s@,
            without_front(s@) == without_front(v@.skip(from as int)),
        decreases v.len() - from,
    {
        assert(v@.skip(from as int)[0] == v@[from as int]);
        assert(v@.skip(from as int).skip(1) =~= v@.skip(from + 1));
        from += 1;
    }
    let ghost rest = v@.skip(from as int);
    proof {
        if rest.len() > 0 {
            assert(rest[0] == v@[from as int]);
        }
        assert(without_front(s@) == rest);
        assert(v@.subrange(from as int, v@.len() as int) =~= rest);
    }
    let mut to = v.len();
    while to > from && v[to - 1] == '/'
        invariant
            from <= to <= v@.len(),
            rest == v@.skip(from as int),
            without_back(rest) == without_back(v@.subrange(from as int, to as int)),
        decreases to,
    {
        let ghost part = v@.subrange(from as int, to as int);
        assert(part.last() == v@[to - 1]);
        assert(part.drop_last() =~= v@.subrange(from as int, to - 1));
        to -= 1;
    }
    proof {
        let part = v@.subrange(from as int, to as int);
        if part.len() > 0 {
            assert(part.last() == v@[to - 1]);
        }
    }
    string_of(&v[from..to])
}

/// The path of an entry of a directory.
pub fn image_path(parent: &str, name: &str) -> (s: String)
    ensures
        s@ == entry_path(parent@, name@),
{
    let mut s: String = "/".to_owned();
    if !same(parent, "/") {
        let middle = trim_slashes(parent);
        push_text(&mut s, middle.as_str());
        push_text(&mut s, "/");
    }
    push_text(&mut s, name);
    s
}

/// The entry with a name.
pub open spec fn named(s: Seq<ItemView>, name: Seq<char>, i: int) -> Option<ItemView>
    decreases s.len() - i,
{
    if i >= s.len() {
        None
    } else if s[i].name == name {
        Some(s[i])
    } else {
        named(s, name, i + 1)
    }
}

/// The file that the parts of a path lead to from a directory.
pub open spec fn followed(fs: Filesystem, d: Seq<u8>, from: u64, parts: Seq<Seq<char>>) -> Result<
    u64,
    Fault,
>
    decreases parts.len(),
{
    if parts.len() == 0 {
        Ok(from)
    } else {
        match followed(fs, d, from, parts.drop_last()) {
            Err(e) => Err(e),
            Ok(id) => match fs.entries(d, id) {
                Err(e) => Err(e),
                Ok(s) => match named(s, parts.last(), 0) {
                    None => fail("path component not found: "@ + parts.last() + ""@),
                    Some(item) => Ok(item.id),
                },
            },
        }
    }
}

/// The file at a path, with its mode.
pub open spec fn resolved(fs: Filesystem, d: Seq<u8>, path: Seq<char>) -> Result<
    (u64, u16),
    Fault,
> {
    match followed(fs, d, fs.root(), parts_of(path)) {
        Err(e) => Err(e),
        Ok(id) => match fs.mode(d, id) {
            Err(e) => Err(e),
            Ok(mode) => Ok((id, mode)),
        },
    }
}

proof fn followed_fails_early(
    fs: Filesystem,
    d: Seq<u8>,
    from: u64,
    parts: Seq<Seq<char>>,
    i: int,
)
    requires
        0 <= i <= parts.len(),
        followed(fs, d, from, parts.take(i)) is Err,
    ensures
        followed(fs, d, from, parts) == followed(fs, d, from, parts.take(i)),
    decreases parts.len(),
{
    if i == parts.len() {
        assert(parts.take(i) =~= parts);
    } else {
        assert(parts.drop_last().take(i) =~= parts.take(i));
        followed_fails_early(fs, d, from, parts.drop_last(), i);
    }
}

fn find_named(v: &Vec<Item>, name: &str) -> (r: Option<usize>)
    ensures
        match r {
            Some(i) => i < v@.len() && named(item_views(v@), name@, 0) == Some(v@[i as int]@),
            None => named(item_views(v@), name@, 0) is None,
        },
{
    let ghost s = item_views(v@);
    let mut i: usize = 0;
    while i < v.len()
        invariant
            i <= v@.len() == s.len(),
            s == item_views(v@),
            named(s, name@, 0) == named(s, name@, i as int),
        decreases v.len() - i,
    {
        assert(s[i as int] == v@[i as int]@);
        if same(v[i].name.as_str(), name) {
            return Some(i);
        }
        i += 1;
    }
    None
}

/// Finds the file at a path, and its mode.
#[verifier::rlimit(60)]
#[verifier::spinoff_prover]
pub fn resolve<S: ByteSource>(fs: &Filesystem, image: &Image<S>, path: &str) -> (r: Result<
    (u64, u16),
    Error,
>)
    requires
        image.wf(),
        fs.wf(),
    ensures
        match r {
            Ok(x) => resolved(*fs, image.disk(), path@) == Ok::<(u64, u16), Fault>(x),
            Err(e) => resolved(*fs, image.disk(), path@) == Err::<(u64, u16), Fault>(e@) || (e is Io
                && image.faulty()),
        },
{
    let ghost d = image.disk();
    let parts = path_parts(path);
    let ghost t = texts(parts@);
    let root = match fs {
        Filesystem::Erofs(sb) => sb.root_nid,
        Filesystem::Ext4(_) => 2,
    };
    let mut id = root;
    let mut i: usize = 0;
    assert(t.take(0) =~= Seq::empty());
    while i < parts.len()
        invariant
            image.wf(),
            fs.wf(),
            d == image.disk(),
            root == fs.root(),
            i <= parts@.len() == t.len(),
            t == texts(parts@),
            t == parts_of(path@),
            followed(*fs, d, root, t.take(i as int)) == Ok::<u64, Fault>(id),
        decreases parts.len() - i,
    {
        proof {
            let u = t.take(i + 1);
            assert(u.drop_last() =~= t.take(i as int));
            assert(u.last() == parts@[i as int]@);
        }
        let items = match fs.list(image, id) {
            Ok(v) => v,
            Err(e) => {
                proof {
                    if followed(*fs, d, root, t.take(i + 1)) is Err {
                        followed_fails_early(*fs, d, root, t, i + 1);
                    }
                }
                return Err(e);
            },
        };
        match find_named(&items, parts[i].as_str()) {
            Some(k) => {
                id = items[k].id;
            },
            None => {
                proof {
                    followed_fails_early(*fs, d, root, t, i + 1);
                }
                return Err(
                    Error::Invalid(
                        with_text("path component not found: ", parts[i].as_str(), ""),
                    ),
                );
            },
        }
        i += 1;
    }
    assert(t.take(i as int) =~= t);
    let mode = fs.read_mode(image, id)?;
    Ok((id, mode))
}

// ---------------------------------------------------------------------
// Listing and finding
// ---------------------------------------------------------------------
/// Whether a name is that of the directory itself or of its parent.
pub open spec fn is_dot(name: Seq<char>) -> bool {
    name == "."@ || name == ".."@
}

/// The line for an entry: with metadata, or the name alone, directories with
/// a slash where they are marked.
pub open spec fn item_line(
    fs: Filesystem,
    d: Seq<u8>,
    item: ItemView,
    name: Seq<char>,
    marked: bool,
    o: MetadataOptions,
) -> Result<Seq<char>, Fault> {
    if o.any() {
        described(fs, d, item, name, o)
    } else {
        Ok(
            name + (if marked && item.file_type == 2 {
                "/"@
            } else {
                ""@
            }) + "\n"@,
        )
    }
}

/// The lines for the entries of a directory.
pub open spec fn listed(fs: Filesystem, d: Seq<u8>, s: Seq<ItemView>, o: MetadataOptions) -> Result<
    Seq<u8>,
    Fault,
>
    decreases s.len(),
{
    if s.len() == 0 {
        Ok(Seq::empty())
    } else {
        match listed(fs, d, s.drop_last(), o) {
            Err(e) => Err(e),
            Ok(t) => if is_dot(s.last().name) {
                Ok(t)
            } else {
                match item_line(fs, d, s.last(), s.last().name, true, o) {
                    Err(e) => Err(e),
                    Ok(line) => Ok(t + encode_utf8(line)),
                }
            },
        }
    }
}

/// Whether a name matches a pattern, or there is none.
pub open spec fn wanted(name: Seq<char>, pattern: Option<Seq<char>>) -> bool {
    match pattern {
        None => true,
        Some(p) => glob(encode_utf8(name), encode_utf8(p)),
    }
}

/// The lines for the entries of a directory that match.
pub open spec fn matched(
    fs: Filesystem,
    d: Seq<u8>,
    s: Seq<ItemView>,
    path: Seq<char>,
    pattern: Option<Seq<char>>,
    o: MetadataOptions,
) -> Result<Seq<u8>, Fault>
    decreases s.len(),
{
    if s.len() == 0 {
        Ok(Seq::empty())
    } else {
        match matched(fs, d, s.drop_last(), path, pattern, o) {
            Err(e) => Err(e),
            Ok(t) => if is_dot(s.last().name) || !wanted(s.last().name, pattern) {
                Ok(t)
            } else {
                match item_line(fs, d, s.last(), entry_path(path, s.last().name), false, o) {
                    Err(e) => Err(e),
                    Ok(line) => Ok(t + encode_utf8(line)),
                }
            },
        }
    }
}

/// The lines for everything below a directory that matches: its own entries,
/// then what is below its subdirectories, the last one first.
pub open spec fn searched(
    fs: Filesystem,
    d: Seq<u8>,
    id: u64,
    path: Seq<char>,
    pattern: Option<Seq<char>>,
    o: MetadataOptions,
    depth: int,
) -> Result<Seq<u8>, Fault>
    decreases MAX_DEPTH + 2 - depth, 0int, 0int,
{
    if depth > MAX_DEPTH {
        fail("directory nesting is too deep"@)
    } else {
        match fs.entries(d, id) {
            Err(e) => Err(e),
            Ok(s) => match matched(fs, d, s, path, pattern, o) {
                Err(e) => Err(e),
                Ok(own) => match searched_below(fs, d, s, path, pattern, o, depth + 1) {
                    Err(e) => Err(e),
                    Ok(rest) => Ok(own + rest),
                },
            },
        }
    }
}

/// The lines for everything below the subdirectories among entries.
pub open spec fn searched_below(
    fs: Filesystem,
    d: Seq<u8>,
    s: Seq<ItemView>,
    path: Seq<char>,
    pattern: Option<Seq<char>>,
    o: MetadataOptions,
    depth: int,
) -> Result<Seq<u8>, Fault>
    decreases MAX_DEPTH + 2 - depth, 1int, s.len(),
    when depth <= MAX_DEPTH + 1
{
    if s.len() == 0 {
        Ok(Seq::empty())
    } else if is_dot(s.last().name) || s.last().file_type != 2 {
        searched_below(fs, d, s.drop_last(), path, pattern, o, depth)
    } else {
        match searched(
            fs,
            d,
            s.last().id,
            entry_path(path, s.last().name),
            pattern,
            o,
            depth,
        ) {
            Err(e) => Err(e),
            Ok(first) => match searched_below(fs, d, s.drop_last(), path, pattern, o, depth) {
                Err(e) => Err(e),
                Ok(rest) => Ok(first + rest),
            },
        }
    }
}

proof fn listed_fails_early(
    fs: Filesystem,
    d: Seq<u8>,
    s: Seq<ItemView>,
    o: MetadataOptions,
    i: int,
)
    requires
        0 <= i <= s.len(),
        listed(fs, d, s.take(i), o) is Err,
    ensures
        listed(fs, d, s, o) == listed(fs, d, s.take(i), o),
    decreases s.len(),
{
    if i == s.len() {
        assert(s.take(i) =~= s);
    } else {
        assert(s.drop_last().take(i) =~= s.take(i));
        listed_fails_early(fs, d, s.drop_last(), o, i);
    }
}

proof fn matched_fails_early(
    fs: Filesystem,
    d: Seq<u8>,
    s: Seq<ItemView>,
    path: Seq<char>,
    pattern: Option<Seq<char>>,
    o: MetadataOptions,
    i: int,
)
    requires
        0 <= i <= s.len(),
        matched(fs, d, s.take(i), path, pattern, o) is Err,
    ensures
        matched(fs, d, s, path, pattern, o) == matched(fs, d, s.take(i), path, pattern, o),
    decreases s.len(),
{
    if i == s.len() {
        assert(s.take(i) =~= s);
    } else {
        assert(s.drop_last().take(i) =~= s.take(i));
        matched_fails_early(fs, d, s.drop_last(), path, pattern, o, i);
    }
}

fn check_dot(name: &str) -> (b: bool)
    ensures
        b == is_dot(name@),
{
    same(name, ".") || same(name, "..")
}

/// Builds the line for an entry.
fn build_item_line<S: ByteSource>(
    fs: &Filesystem,
    image: &Image<S>,
    item: &Item,
    name: &str,
    marked: bool,
    o: MetadataOptions,
) -> (r: Result<String, Error>)
    requires
        image.wf(),
        fs.wf(),
    ensures
        told(image.faulty(), r, item_line(*fs, image.disk(), item@, name@, marked, o)),
{
    if o.requested() {
        return describe(fs, image, item, name, o);
    }
    let mark = if marked && item.file_type == 2 {
        "/"
    } else {
        ""
    };
    let mut line: String = "".to_owned();
    push_text(&mut line, name);
    push_text(&mut line, mark);
    push_text(&mut line, "\n");
    proof {
        reveal_strlit("");
        assert(line@ =~= name@ + mark@ + "\n"@);
    }
    Ok(line)
}

/// The bytes of a line.
pub open spec fn line_bytes(line: Result<Seq<char>, Fault>) -> Result<Seq<u8>, Fault> {
    match line {
        Err(e) => Err(e),
        Ok(x) => Ok(encode_utf8(x)),
    }
}

/// Writes the line for an entry.
fn write_item<S: ByteSource, O: ByteSink>(
    fs: &Filesystem,
    image: &Image<S>,
    item: &Item,
    name: &str,
    marked: bool,
    o: MetadataOptions,
    out: &mut O,
) -> (r: Result<(), Error>)
    requires
        image.wf(),
        fs.wf(),
    ensures
        final(out).full() == old(out).full(),
        sent(
            image.faulty() || old(out).full(),
            r,
            old(out).written(),
            final(out).written(),
            line_bytes(item_line(*fs, image.disk(), item@, name@, marked, o)),
        ),
{
    let line = build_item_line(fs, image, item, name, marked, o)?;
    out.write(line.as_str().as_bytes())
}

/// Writes the lines for the entries of a directory.
pub fn write_list<S: ByteSource, O: ByteSink>(
    fs: &Filesystem,
    image: &Image<S>,
    items: &Vec<Item>,
    o: MetadataOptions,
    out: &mut O,
) -> (r: Result<(), Error>)
    requires
        image.wf(),
        fs.wf(),
    ensures
        final(out).full() == old(out).full(),
        sent(
            image.faulty() || old(out).full(),
            r,
            old(out).written(),
            final(out).written(),
            listed(*fs, image.disk(), item_views(items@), o),
        ),
{
    let ghost s = item_views(items@);
    let ghost d = image.disk();
    let ghost before = out.written();
    let ghost mut done: Seq<u8> = Seq::empty();
    let mut i: usize = 0;
    assert(s.take(0) =~= Seq::empty());
    assert(before + done =~= before);
    while i < items.len()
        invariant
            image.wf(),
            fs.wf(),
            d == image.disk(),
            out.full() == old(out).full(),
            before == old(out).written(),
            i <= items@.len() == s.len(),
            s == item_views(items@),
            out.written() == before + done,
            listed(*fs, d, s.take(i as int), o) == Ok::<Seq<u8>, Fault>(done),
        decreases items.len() - i,
    {
        let item = &items[i];
        proof {
            let t = s.take(i + 1);
            assert(t.drop_last() =~= s.take(i as int));
            assert(t.last() == item@);
        }
        if !check_dot(item.name.as_str()) {
            let ghost x = line_bytes(item_line(*fs, d, item@, item@.name, true, o));
            match write_item(fs, image, item, item.name.as_str(), true, o, out) {
                Ok(_) => {},
                Err(e) => {
                    proof {
                        if listed(*fs, d, s.take(i + 1), o) is Err {
                            listed_fails_early(*fs, d, s, o, i + 1);
                        }
                    }
                    return Err(e);
                },
            }
            proof {
                assert(before + done + x->Ok_0 =~= before + (done + x->Ok_0));
                done = done + x->Ok_0;
            }
        }
        i += 1;
    }
    assert(s.take(i as int) =~= s);
    Ok(())
}

fn check_wanted(name: &str, pattern: &Option<String>) -> (b: bool)
    ensures
        b == wanted(name@, opt_text(*pattern)),
{
    match pattern {
        None => true,
        Some(p) => matches_pattern(name, p.as_str()),
    }
}

/// Writes the lines for the entries of a directory that match.
fn write_matched<S: ByteSource, O: ByteSink>(
    fs: &Filesystem,
    image: &Image<S>,
    items: &Vec<Item>,
    path: &str,
    pattern: &Option<String>,
    o: MetadataOptions,
    out: &mut O,
) -> (r: Result<(), Error>)
    requires
        image.wf(),
        fs.wf(),
    ensures
        final(out).full() == old(out).full(),
        sent(
            image.faulty() || old(out).full(),
            r,
            old(out).written(),
            final(out).written(),
            matched(*fs, image.disk(), item_views(items@), path@, opt_text(*pattern), o),
        ),
{
    let ghost s = item_views(items@);
    let ghost d = image.disk();
    let ghost p = opt_text(*pattern);
    let ghost before = out.written();
    let ghost mut done: Seq<u8> = Seq::empty();
    let mut i: usize = 0;
    assert(s.take(0) =~= Seq::empty());
    assert(before + done =~= before);
    while i < items.len()
        invariant
            image.wf(),
            fs.wf(),
            d == image.disk(),
            p == opt_text(*pattern),
            out.full() == old(out).full(),
            before == old(out).written(),
            i <= items@.len() == s.len(),
            s == item_views(items@),
            out.written() == before + done,
            matched(*fs, d, s.take(i as int), path@, p, o) == Ok::<Seq<u8>, Fault>(done),
        decreases items.len() - i,
    {
        let item = &items[i];
        proof {
            let t = s.take(i + 1);
            assert(t.drop_last() =~= s.take(i as int));
            assert(t.last() == item@);
        }
        if !check_dot(item.name.as_str()) && check_wanted(item.name.as_str(), pattern) {
            let name = image_path(path, item.name.as_str());
            let ghost x = line_bytes(item_line(*fs, d, item@, name@, false, o));
            match write_item(fs, image, item, name.as_str(), false, o, out) {
                Ok(_) => {},
                Err(e) => {
                    proof {
                        if matched(*fs, d, s.take(i + 1), path@, p, o) is Err {
                            matched_fails_early(*fs, d, s, path@, p, o, i + 1);
                        }
                    }
                    return Err(e);
                },
            }
            proof {
                assert(before + done + x->Ok_0 =~= before + (done + x->Ok_0));
                done = done + x->Ok_0;
            }
        }
        i += 1;
    }
    assert(s.take(i as int) =~= s);
    Ok(())
}

/// Writes the lines for everything below a directory that matches.
pub fn search<S: ByteSource, O: ByteSink>(
    fs: &Filesystem,
    image: &Image<S>,
    id: u64,
    path: &str,
    pattern: &Option<String>,
    o: MetadataOptions,
    depth: u32,
    out: &mut O,
) -> (r: Result<(), Error>)
    requires
        image.wf(),
        fs.wf(),
        depth <= MAX_DEPTH + 1,
    ensures
        final(out).full() == old(out).full(),
        sent(
            image.faulty() || old(out).full(),
            r,
            old(out).written(),
            final(out).written(),
            searched(*fs, image.disk(), id, path@, opt_text(*pattern), o, depth as int),
        ),
    decreases MAX_DEPTH + 2 - depth, 0int,
{
    if depth > MAX_DEPTH {
        return Err(Error::invalid("directory nesting is too deep"));
    }
    let ghost d = image.disk();
    let ghost p = opt_text(*pattern);
    let ghost before = out.written();
    let items = fs.list(image, id)?;
    let ghost s = item_views(items@);
    write_matched(fs, image, &items, path, pattern, o, out)?;
    let ghost own = matched(*fs, d, s, path@, p, o)->Ok_0;
    let r = search_below(fs, image, &items, path, pattern, o, depth + 1, out);
    proof {
        if let Ok(rest) = searched_below(*fs, d, s, path@, p, o, depth + 1) {
            assert(before + own + rest =~= before + (own + rest));
        }
    }
    r
}

/// Writes the lines for everything below the subdirectories among entries.
#[verifier::rlimit(60)]
#[verifier::spinoff_prover]
fn search_below<S: ByteSource, O: ByteSink>(
    fs: &Filesystem,
    image: &Image<S>,
    items: &Vec<Item>,
    path: &str,
    pattern: &Option<String>,
    o: MetadataOptions,
    depth: u32,
    out: &mut O,
) -> (r: Result<(), Error>)
    requires
        image.wf(),
        fs.wf(),
        depth <= MAX_DEPTH + 1,
    ensures
        final(out).full() == old(out).full(),
        sent(
            image.faulty() || old(out).full(),
            r,
            old(out).written(),
            final(out).written(),
            searched_below(
                *fs,
                image.disk(),
                item_views(items@),
                path@,
                opt_text(*pattern),
                o,
                depth as int,
            ),
        ),
    decreases MAX_DEPTH + 2 - depth, 1int,
{
    let ghost d = image.disk();
    let ghost p = opt_text(*pattern);
    let ghost s = item_views(items@);
    let ghost before = out.written();
    let ghost whole = searched_below(*fs, d, s, path@, p, o, depth as int);
    let ghost mut done: Seq<u8> = Seq::empty();
    let mut i: usize = items.len();
    proof {
        assert(s.take(i as int) =~= s);
        assert(before + done =~= before);
        if let Ok(x) = whole {
            assert(done + x =~= x);
        }
    }
    while i > 0
        invariant
            image.wf(),
            fs.wf(),
            depth <= MAX_DEPTH + 1,
            d == image.disk(),
            p == opt_text(*pattern),
            out.full() == old(out).full(),
            before == old(out).written(),
            i <= items@.len() == s.len(),
            s == item_views(items@),
            out.written() == before + done,
            whole == searched_below(*fs, d, s, path@, p, o, depth as int),
            whole == (match searched_below(
                *fs,
                d,
                s.take(i as int),
                path@,
                p,
                o,
                depth as int,
            ) {
                Err(e) => Err(e),
                Ok(rest) => Ok(done + rest),
            }),
        decreases i,
    {
        let item = &items[i - 1];
        proof {
            let t = s.take(i as int);
            assert(t.drop_last() =~= s.take(i - 1));
            assert(t.last() == item@);
        }
        if !check_dot(item.name.as_str()) && item.file_type == 2 {
            let name = image_path(path, item.name.as_str());
            match search(fs, image, item.id, name.as_str(), pattern, o, depth, out) {
                Ok(_) => {},
                Err(e) => {
                    return Err(e);
                },
            }
            proof {
                let x = searched(*fs, d, item@.id, name@, p, o, depth as int)->Ok_0;
                assert(before + done + x =~= before + (done + x));
                if let Ok(rest) = searched_below(
                    *fs,
                    d,
                    s.take(i - 1),
                    path@,
                    p,
                    o,
                    depth as int,
                ) {
                    assert(done + (x + rest) =~= (done + x) + rest);
                }
                done = done + x;
            }
        }
        i -= 1;
    }
    proof {
        assert(s.take(0) =~= Seq::empty());
        assert(done + Seq::<u8>::empty() =~= done);
    }
    Ok(())
}

} // verus!
