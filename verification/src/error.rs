use vstd::prelude::*;

verus! {

/// The error kinds of the library.
///
/// `Io` covers unreadable directories and files, `Sqlite` covers store
/// failures (including exhaustion of the id space), `Migration` covers
/// schema upgrade failures, `SystemTime` covers file timestamps that
/// predate the epoch, and `RepoUninitialized` signals that the metadata
/// directory is missing. The payloads of the underlying causes are kept
/// by the application shell; the library records only the kind.
#[derive(Clone, Copy, Debug, PartialEq, Eq, Structural)]
pub enum FotosError {
    Io,
    Sqlite,
    Migration,
    Unknown,
    SystemTime,
    RepoUninitialized,
}

} // verus!
