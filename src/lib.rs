use vstd::prelude::*;

pub mod hash;
pub mod objects;
pub mod tree;
pub mod directory;
pub mod delta;
pub mod protocol;
pub mod commit;
pub mod repository;
pub mod packfile;
pub mod push;
pub mod clone;

pub use clone::Reference;
pub use repository::Repository;
pub use tree::{EntryType, FileType, Mode};

/// The error type of the SSH transport.
pub use coolssh::Error as SshFailure;

verus! {

/// Declares the SSH transport's error type, which `Error` carries.
#[verifier::external_type_specification]
#[verifier::external_body]
pub struct ExSshError(SshFailure);

/// Errors that can occur during repository manipulation.
#[derive(Debug, Clone, Copy)]
pub enum Error {
    SshError(SshFailure),
    DirtyWorkspace,
    InvalidObject,
    PathError,
    MissingObject,
    NoSuchReference,
    GitProtocolError,
    InvalidPackfile,
    MustForcePush,
    UnsupportedByRemote,
}

impl From<SshFailure> for Error {
    fn from(e: SshFailure) -> (r: Error) {
        Error::SshError(e)
    }
}

impl vstd::std_specs::convert::FromSpecImpl<SshFailure> for Error {
    open spec fn obeys_from_spec() -> bool {
        true
    }

    open spec fn from_spec(e: SshFailure) -> Error {
        Error::SshError(e)
    }
}

} // verus!
