use dodo::deps::has_file_been_modified;
use dodo::error::{Error, UserError};
use dodo::target::{Target, Task};

#[test]
fn user_error_converts_into_error() {
    let e: Error = UserError::NoSuchTarget("x".to_string()).into();
    match e {
        Error::UserError(UserError::NoSuchTarget(id)) => assert_eq!(id, "x"),
        other => panic!("unexpected error: {:?}", other),
    }
}

#[test]
fn internal_error_keeps_its_reason() {
    match Error::internal("why") {
        Error::Internal { reason } => assert_eq!(reason, "why"),
        other => panic!("unexpected error: {:?}", other),
    }
}

#[test]
fn every_file_counts_as_modified() {
    assert!(matches!(has_file_been_modified(&"a.c".to_string(), ()), Ok(true)));
}

#[test]
fn target_clone_keeps_every_field() {
    let t = Target {
        identifier: "out".to_string(),
        tasks: vec![Task {
            command: "cc".to_string(),
            working_dir: Some("src".to_string()),
        }],
        working_dir: None,
        deps: vec!["a".to_string(), "b".to_string()],
    };
    let c = t.clone();
    assert_eq!(c.identifier, t.identifier);
    assert_eq!(c.tasks, t.tasks);
    assert_eq!(c.working_dir, t.working_dir);
    assert_eq!(c.deps, t.deps);
    assert_eq!(c.working_dir(), None);
}

#[test]
fn tasks_compare_by_command_and_directory() {
    let a = Task {
        command: "make".to_string(),
        working_dir: None,
    };
    let b = Task {
        command: "make".to_string(),
        working_dir: Some("sub".to_string()),
    };
    assert_eq!(a, a.clone());
    assert_ne!(a, b);
    assert_eq!(b.working_dir(), Some("sub"));
}
