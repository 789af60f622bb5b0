//! The read command.
use super::cli::{Cli, CliView, MetadataOptions, Operation, OperationView};
use super::info::{build_erofs_info, build_ext4_info, erofs_info, ext4_info};
use super::show::{
    dir_mode, filesystem_fault, is_filesystem_of, listed, resolve, resolved, search, searched, sent,
    write_list, Filesystem,
};
use crate::error::{fail, Error, Fault};
use crate::image::{ByteSink, ByteSource, Image};
use crate::text::with_text;
use vstd::prelude::*;
use vstd::utf8::encode_utf8;

verus! {

/// What is known of an image.
#[verifier::opaque]
pub open spec fn info_text<S: ByteSource>(fs: Filesystem, image: Image<S>) -> Seq<char> {
    match fs {
        Filesystem::Erofs(sb) => erofs_info(sb, image),
        Filesystem::Ext4(sb) => ext4_info(sb, image),
    }
}

/// Fails unless a directory is looked into, where that is said of ext4.
pub open spec fn enterable(fs: Filesystem, path: Seq<char>, mode: u16) -> Result<(), Fault> {
    if fs is Ext4 && !dir_mode(mode) {
        fail(""@ + path + " is not a directory"@)
    } else {
        Ok(())
    }
}

/// The output of an operation.
#[verifier::opaque]
pub open spec fn operated(
    fs: Filesystem,
    d: Seq<u8>,
    path: Seq<char>,
    operation: OperationView,
    o: MetadataOptions,
) -> Result<Seq<u8>, Fault> {
    match resolved(fs, d, path) {
        Err(e) => Err(e),
        Ok((id, mode)) => match operation {
            OperationView::List => match enterable(fs, path, mode) {
                Err(e) => Err(e),
                Ok(_) => match fs.entries(d, id) {
                    Err(e) => Err(e),
                    Ok(s) => listed(fs, d, s, o),
                },
            },
            OperationView::Find(pattern) => match enterable(fs, path, mode) {
                Err(e) => Err(e),
                Ok(_) => searched(fs, d, id, path, pattern, o, 0),
            },
            OperationView::Cat => if dir_mode(mode) {
                fail(""@ + path + " is a directory"@)
            } else {
                fs.content(d, id)
            },
        },
    }
}

/// The operation: listing, where nothing is asked for.
pub open spec fn chosen(c: CliView) -> Option<OperationView> {
    match c.operation {
        Some(o) => Some(o),
        None => if c.info {
            None
        } else {
            Some(OperationView::List)
        },
    }
}

/// The output of the read command.
pub open spec fn shown<S: ByteSource>(fs: Filesystem, image: Image<S>, c: CliView) -> Result<
    Seq<u8>,
    Fault,
> {
    if c.operation == Some(OperationView::Cat) && (c.info || c.metadata.any()) {
        fail("--cat cannot be combined with info or metadata output"@)
    } else {
        let head = if c.info {
            encode_utf8(info_text(fs, image))
        } else {
            Seq::empty()
        };
        match chosen(c) {
            None => Ok(head),
            Some(operation) => match operated(fs, image.disk(), c.path, operation, c.metadata) {
                Err(e) => Err(e),
                Ok(x) => Ok(head + x),
            },
        }
    }
}

fn operate<S: ByteSource, O: ByteSink>(
    fs: &Filesystem,
    image: &Image<S>,
    path: &str,
    operation: &Operation,
    o: MetadataOptions,
    out: &mut O,
) -> (r: Result<(), Error>)
    requires
        image.wf(),
        fs.wf(),
    ensures
        final(out).full() == old(out).full(),
        sent(
            image.faulty() || old(out).full(),
            r,
            old(out).written(),
            final(out).written(),
            operated(*fs, image.disk(), path@, operation@, o),
        ),
{
    proof {
        reveal(operated);
    }
    let (id, mode) = resolve(fs, image, path)?;
    let is_dir = mode & 0x4000 != 0;
    let is_ext4 = match fs {
        Filesystem::Erofs(_) => false,
        Filesystem::Ext4(_) => true,
    };
    match operation {
        Operation::Cat => {
            if is_dir {
                return Err(Error::Invalid(with_text("", path, " is a directory")));
            }
            fs.stream(image, id, out)
        },
        Operation::List => {
            if is_ext4 && !is_dir {
                return Err(Error::Invalid(with_text("", path, " is not a directory")));
            }
            let items = fs.list(image, id)?;
            write_list(fs, image, &items, o, out)
        },
        Operation::Find(pattern) => {
            if is_ext4 && !is_dir {
                return Err(Error::Invalid(with_text("", path, " is not a directory")));
            }
            search(fs, image, id, path, pattern, o, 0, out)
        },
    }
}

fn write_info<S: ByteSource, O: ByteSink>(fs: &Filesystem, image: &Image<S>, out: &mut O) -> (r:
    Result<(), Error>)
    requires
        image.wf(),
    ensures
        final(out).full() == old(out).full(),
        match r {
            Ok(_) => final(out).written() == old(out).written() + encode_utf8(
                info_text(*fs, *image),
            ),
            Err(e) => e is Io && old(out).full(),
        },
{
    proof {
        reveal(info_text);
    }
    let text = match fs {
        Filesystem::Erofs(sb) => build_erofs_info(sb, image),
        Filesystem::Ext4(sb) => build_ext4_info(sb, image),
    };
    out.write(text.as_str().as_bytes())
}

/// Shows what the arguments ask for.
pub fn show<S: ByteSource, O: ByteSink>(
    fs: &Filesystem,
    image: &Image<S>,
    cli: &Cli,
    out: &mut O,
) -> (r: Result<(), Error>)
    requires
        image.wf(),
        fs.wf(),
    ensures
        final(out).full() == old(out).full(),
        sent(
            image.faulty() || old(out).full(),
            r,
            old(out).written(),
            final(out).written(),
            shown(*fs, *image, cli@),
        ),
{
    let cats = match &cli.operation {
        Some(Operation::Cat) => true,
        _ => false,
    };
    if cats && (cli.info || cli.metadata.requested()) {
        return Err(Error::invalid("--cat cannot be combined with info or metadata output"));
    }
    let ghost before = out.written();
    let ghost mut head: Seq<u8> = Seq::empty();
    assert(before + head =~= before);
    if cli.info {
        write_info(fs, image, out)?;
        proof {
            head = encode_utf8(info_text(*fs, *image));
        }
    }
    let ghost middle = out.written();
    let r = match &cli.operation {
        Some(operation) => operate(
            fs,
            image,
            cli.path.as_str(),
            operation,
            cli.metadata,
            out,
        ),
        None => {
            if cli.info {
                return Ok(());
            }
            operate(fs, image, cli.path.as_str(), &Operation::List, cli.metadata, out)
        },
    };
    proof {
        if let Some(operation) = chosen(cli@) {
            if let Ok(x) = operated(*fs, image.disk(), cli@.path, operation, cli@.metadata) {
                assert(before + head + x =~= before + (head + x));
            }
        }
    }
    r
}

/// Shows what the arguments ask for, of an image with any filesystem.
pub fn run_cli<S: ByteSource, O: ByteSink>(cli: &Cli, image: &Image<S>, out: &mut O) -> (r: Result<
    (),
    Error,
>)
    requires
        image.wf(),
    ensures
        final(out).full() == old(out).full(),
        match r {
            Ok(_) => exists|fs: Filesystem|
                #![trigger is_filesystem_of(fs, image.disk())]
                is_filesystem_of(fs, image.disk()) && sent(
                    image.faulty() || old(out).full(),
                    r,
                    old(out).written(),
                    final(out).written(),
                    shown(fs, *image, cli@),
                ),
            Err(e) => {
                ||| e is Io && (image.faulty() || old(out).full())
                ||| filesystem_fault(image.disk()) == Some(e@)
                ||| exists|fs: Filesystem|
                    #![trigger is_filesystem_of(fs, image.disk())]
                    is_filesystem_of(fs, image.disk()) && shown(fs, *image, cli@) == Err::<
                        Seq<u8>,
                        Fault,
                    >(e@)
            },
        },
{
    let fs = Filesystem::open(image)?;
    assert(is_filesystem_of(fs, image.disk()));
    show(&fs, image, cli, out)
}

} // verus!
