use image_worker::command::{choose_command, looks_like_write, Command};
use image_worker::error::Error;
use image_worker::fs::erofs::codec::Algo;
use image_worker::fs::FsKind;
use image_worker::read::cli::{parse_cli, Cli, Operation};
use image_worker::write::args::{
    parse_args, parse_mode, parse_owner, parse_reserve, Config, FsTarget,
};
use image_worker::write::edit::Action;
use image_worker::write::route::{check_options, choose_conversion_algo, has_removal};

fn words(s: &str) -> Vec<String> {
    s.split(' ').filter(|w| !w.is_empty()).map(|w| w.to_owned()).collect()
}

fn message<T>(r: Result<T, Error>) -> String {
    match r {
        Ok(_) => panic!("no error"),
        Err(e) => e.message(),
    }
}

/// Reads arguments of the read command; words that end in `.img` are files.
fn cli(s: &str) -> Result<Option<Cli>, Error> {
    let args = words(s);
    let files = args.iter().map(|w| w.ends_with(".img")).collect();
    parse_cli(&args, &files)
}

fn config(s: &str) -> Result<Config, Error> {
    parse_args(&words(s))
}

#[test]
fn commands_are_chosen() {
    assert!(matches!(choose_command(&words("")), Command::Usage));
    assert!(matches!(choose_command(&words("--help")), Command::Usage));
    assert!(matches!(choose_command(&words("-h")), Command::Usage));
    assert!(matches!(choose_command(&words("read a.img")), Command::Read(1)));
    assert!(matches!(choose_command(&words("write a b --rm /c")), Command::Write(1)));
    assert!(matches!(choose_command(&words("a b --rm /c")), Command::Write(0)));
    assert!(matches!(choose_command(&words("--ls a.img")), Command::Read(0)));
    assert!(looks_like_write(&words("x --shader-blocks y")));
    assert!(!looks_like_write(&words("--ls --info")));
}

#[test]
fn read_arguments_are_understood() {
    let c = cli("-l -t -Z a.img /etc").unwrap().unwrap();
    assert_eq!(c.image, "a.img");
    assert_eq!(c.path, "/etc");
    assert!(matches!(c.operation, Some(Operation::List)));
    assert!(c.metadata.file_type && c.metadata.context && !c.metadata.owner);
    assert!(c.metadata.requested());
    let c = cli("/etc a.img").unwrap().unwrap();
    assert_eq!((c.image.as_str(), c.path.as_str()), ("a.img", "/etc"));
    let c = cli("--info a.img").unwrap().unwrap();
    assert!(c.info && c.operation.is_none() && c.path == "/");
    let c = cli("--find=*.rc a.img").unwrap().unwrap();
    assert!(matches!(c.operation, Some(Operation::Find(Some(p))) if p == "*.rc"));
    let c = cli("--stdin /etc").unwrap().unwrap();
    assert_eq!((c.image.as_str(), c.path.as_str()), ("-", "/etc"));
    assert!(cli("-h").unwrap().is_none());
}

#[test]
fn read_arguments_are_checked() {
    assert_eq!(message(cli("-l -c a.img")), "only one operation may be selected");
    assert_eq!(message(cli("--find= a.img")), "--find pattern cannot be empty");
    assert_eq!(message(cli("")), "image path is required; use --help for usage");
    assert_eq!(message(cli("--bogus a.img")), "unknown option: --bogus");
    assert_eq!(message(cli("missing")), "image file not found: missing");
}

#[test]
fn values_are_read() {
    assert_eq!(parse_mode("0755").unwrap(), 0o755);
    assert_eq!(message(parse_mode("9")), "invalid mode: 9");
    assert_eq!(parse_reserve("64").unwrap(), 64);
    assert_eq!(parse_reserve("1G").unwrap(), 1024);
    assert_eq!(parse_reserve("512K").unwrap(), 1);
    assert_eq!(message(parse_reserve("x")), "invalid reserve size: x (try 64M)");
    assert_eq!(parse_owner("1000:2000").unwrap(), (1000, 2000));
    assert_eq!(message(parse_owner("1000")), "owner must be uid:gid");
}

#[test]
fn write_arguments_are_understood() {
    let c = config("in.img out.img --add host /etc/a --mode 0644 --uid 1 --gid 2 --context u:o --rm /b -R /c --sparse-output --shared-blocks y --reserve-mb 1G --compact")
        .unwrap();
    assert_eq!((c.input.as_str(), c.output.as_str()), ("in.img", "out.img"));
    assert!(c.sparse_output && c.compact && c.shared_blocks == Some(true));
    assert_eq!(c.reserve_mb, 1024);
    assert_eq!(c.actions.len(), 3);
    match &c.actions[0] {
        Action::Add { source, destination, metadata } => {
            assert_eq!((source.as_str(), destination.as_str()), ("host", "/etc/a"));
            assert_eq!((metadata.mode, metadata.uid, metadata.gid), (Some(0o644), Some(1), Some(2)));
            assert_eq!(metadata.context.as_deref(), Some("u:o"));
        }
        _ => panic!("not an addition"),
    }
    assert!(matches!(&c.actions[1], Action::Remove { path, recursive: false } if path == "/b"));
    assert!(matches!(&c.actions[2], Action::Remove { path, recursive: true } if path == "/c"));
    assert!(has_removal(&c.actions));
    let c = config("--input a --output - --set-mode /x 0700 --set-owner /x 3:4 --set-context /x u:r")
        .unwrap();
    assert_eq!((c.input.as_str(), c.output.as_str()), ("a", "-"));
    assert!(matches!(&c.actions[0], Action::SetMode { mode: 0o700, .. }));
    assert!(matches!(&c.actions[1], Action::SetOwner { uid: 3, gid: 4, .. }));
    assert!(matches!(&c.actions[2], Action::SetContext { context, .. } if context == "u:r"));
    assert!(!has_removal(&c.actions));
    let c = config("a b --convert-to erofs --compress deflate").unwrap();
    assert!(c.convert_to == Some(FsTarget::Erofs) && c.compress == Algo::Deflate && c.compress_explicit);
}

#[test]
fn write_arguments_are_checked() {
    assert_eq!(message(config("--help")), "help requested");
    assert_eq!(message(config("a b --bogus")), "unknown option: --bogus");
    assert_eq!(message(config("a")), "invalid arguments; use --help for usage");
    assert_eq!(
        message(config("a b --convert-to fat")),
        "invalid --convert-to value: fat (use erofs or ext4)"
    );
    assert_eq!(
        message(config("a b --shared-blocks maybe")),
        "invalid --shared-blocks value: maybe (use y/n)"
    );
    assert_eq!(
        message(config("a b --convert-to ext4 --rm /x")),
        "--convert-to does not take file actions; convert first, then edit"
    );
}

#[test]
fn options_go_with_filesystems() {
    let c = config("a b --convert-to erofs --reserve-mb 5").unwrap();
    assert_eq!(
        message(check_options(&c, FsKind::Ext4)),
        "--reserve-mb applies to ext4 output only"
    );
    let c = config("a b --convert-to erofs --shared-blocks y").unwrap();
    assert_eq!(
        message(check_options(&c, FsKind::Ext4)),
        "--shared-blocks applies to ext4 output only"
    );
    let c = config("a b --rm /x --compress lz4").unwrap();
    assert!(check_options(&c, FsKind::Erofs).is_ok());
    assert_eq!(
        message(check_options(&c, FsKind::Ext4)),
        "--compress applies to EROFS output only"
    );
    let c = config("a b --convert-to erofs").unwrap();
    assert_eq!(choose_conversion_algo(&c, FsKind::Ext4), Algo::Lz4);
    assert_eq!(choose_conversion_algo(&c, FsKind::Erofs), Algo::Off);
    let c = config("a b --convert-to erofs --compress none").unwrap();
    assert_eq!(choose_conversion_algo(&c, FsKind::Ext4), Algo::Off);
}
