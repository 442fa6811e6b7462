//! Errors of the library.
use vstd::prelude::*;

use std::io::Error as IoError;
use toml::de::Error as TomlError;

verus! {

#[verifier::external_type_specification]
#[verifier::external_body]
pub struct ExTomlError(TomlError);

#[verifier::external_type_specification]
#[verifier::external_body]
pub struct ExIoError(IoError);

/// What can go wrong, from reading the configuration to running a task.
#[derive(Debug)]
pub enum Error {
    UserError(UserError),
    TOML(TomlError),
    IO(IoError),
    Formatting(FmtError),
    /// A broken invariant of the library; never caused by the user.
    Internal { reason: &'static str },
    Other,
}

impl Error {
    /// An error for a broken invariant, with a word on where it was found.
    pub fn internal(reason: &'static str) -> (e: Self)
        ensures
            e == (Error::Internal { reason }),
    {
        Error::Internal { reason }
    }
}

/// Mistakes in what the user asked for or wrote.
#[derive(Debug)]
pub enum UserError {
    EmptyCommand,
    EmptyTargetIdentifier,
    DependencyCycle,
    DuplicateTarget,
    ConfigNotFound,
    NoSuchTarget(String),
}

impl From<UserError> for Error {
    fn from(inner: UserError) -> (e: Self) {
        Error::UserError(inner)
    }
}

impl vstd::std_specs::convert::FromSpecImpl<UserError> for Error {
    open spec fn obeys_from_spec() -> bool {
        true
    }

    open spec fn from_spec(inner: UserError) -> Error {
        Error::UserError(inner)
    }
}

/// Mistakes in a task's command template.
#[derive(Debug)]
pub enum FmtError {
    EmptyBrackets,
    InvalidVar(String),
}

} // verus!
