use dodo::error::{Error, UserError};
use dodo::fingerprint::content_hash;
use dodo::format::format_arg;
use dodo::target::{Task, TaskContext};

fn context() -> TaskContext {
    TaskContext {
        target_filename: "app.bin".to_string(),
    }
}

fn task(cmd: &str) -> Task {
    Task {
        command: cmd.to_string(),
        working_dir: None,
    }
}

#[test]
fn command_splits_on_spaces() {
    let (program, args) = task("  cc   -o {target_filename}  main.c ")
        .format_command(&context())
        .unwrap();
    assert_eq!(program, "cc");
    assert_eq!(args, vec!["-o", "app.bin", "main.c"]);
}

#[test]
fn command_without_arguments() {
    let (program, args) = task("make").format_command(&context()).unwrap();
    assert_eq!(program, "make");
    assert!(args.is_empty());
}

#[test]
fn empty_command_is_rejected() {
    let r = task("   ").format_command(&context());
    assert!(matches!(r, Err(Error::UserError(UserError::EmptyCommand))));
    let r = task("").format_command(&context());
    assert!(matches!(r, Err(Error::UserError(UserError::EmptyCommand))));
}

#[test]
fn unknown_placeholder_is_rejected() {
    let r = task("echo {other}").format_command(&context());
    assert!(matches!(r, Err(Error::Internal { .. })));
}

#[test]
fn argument_is_filled_inside_a_word() {
    assert_eq!(
        format_arg("--out=dist/{target_filename}.gz", &context()).unwrap(),
        "--out=dist/app.bin.gz"
    );
    assert_eq!(format_arg("plain", &context()).unwrap(), "plain");
}

#[test]
fn positional_placeholder_is_rejected() {
    assert!(matches!(format_arg("{}", &context()), Err(Error::Internal { .. })));
}

// the expected values are those of a 64-bit little-endian machine, where the
// length prefix is eight bytes, least significant first
#[test]
fn hash_of_content() {
    assert_eq!(content_hash(&b"abc".to_vec()), 0xf054_5d02_a524_6fe5);
    assert_eq!(content_hash(&Vec::new()), 0x34c9_6acd_cadb_1bbb);
}
