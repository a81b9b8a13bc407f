use vstd::prelude::*;

verus! {

/// The failures the archive reports.
///
/// `IOError` covers filesystem and store-backend failures, `NotFound` a
/// missing file record or chunk lookup, `Corruption` a file record that
/// references an address absent from the chunk store (or stored bytes
/// that do not decompress), `UnsupportedInput` an enumerated path that is
/// neither a regular file nor a directory, and `Collision` an extraction
/// destination that already exists.
#[derive(Clone, Copy, Debug, PartialEq, Eq, Structural)]
pub enum ArchiveError {
    IOError,
    NotFound,
    Corruption,
    UnsupportedInput,
    Collision,
}

} // verus!
