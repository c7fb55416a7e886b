//! What the library asks of the machine it runs on. Nothing is proved of
//! these answers: they are whatever the host says at the time of the call.

use vstd::prelude::*;

verus! {

/// `std::io::Error`: carried through as it comes, never looked into.
#[verifier::external_type_specification]
#[verifier::external_body]
pub struct ExIoError(std::io::Error);

/// Calls `std::path::Path::exists` on `path`: whether something stands at
/// that place in the file system right now. The answer depends on the disk,
/// so the contract promises nothing about it.
#[verifier::external_body]
pub(crate) fn path_exists(path: &str) -> (found: bool) {
    std::path::Path::new(path).exists()
}

/// Calls `whoami::username`: the login name of the user the process runs as,
/// or a stand-in where the system does not tell. The answer depends on the
/// host, so the contract promises nothing about it.
#[verifier::external_body]
pub(crate) fn current_username() -> (name: String) {
    whoami::username()
}

} // verus!
