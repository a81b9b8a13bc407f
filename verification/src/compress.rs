use vstd::prelude::*;
use crate::errors::ArchiveError;

verus! {

/// What zstd decompression makes of `data`: the original bytes if `data`
/// is a complete zstd frame, `None` otherwise.  A pure function of the
/// compressed bytes.
pub uninterp spec fn zstd_decoded(data: Seq<u8>) -> Option<Seq<u8>>;

/// What zstd compression at the store's fixed level makes of `data`.
/// A pure function of the input bytes for a fixed library version and
/// level.
pub uninterp spec fn zstd_encoded(data: Seq<u8>) -> Seq<u8>;

/// Relies on zstd::encode_all at the default compression level: the
/// output is a function of the input bytes alone, and zstd::decode_all
/// restores them exactly (lossless round trip, also for empty input).
#[verifier::external_body]
pub(crate) fn zstd_compress(data: &[u8]) -> (r: Result<Vec<u8>, ArchiveError>)
    ensures
        r matches Ok(c) ==> c@ == zstd_encoded(data@) && zstd_decoded(c@) == Some(data@),
        r matches Err(e) ==> e == ArchiveError::IOError,
{
    match zstd::encode_all(data, 0) {
        Ok(v) => Ok(v),
        Err(_) => Err(ArchiveError::IOError),
    }
}

/// Relies on zstd::decode_all: decompression is a function of the
/// compressed bytes alone, and fails exactly on bytes that are not a
/// complete zstd frame.
#[verifier::external_body]
pub(crate) fn zstd_decompress(data: &[u8]) -> (r: Result<Vec<u8>, ArchiveError>)
    ensures
        match r {
            Ok(d) => zstd_decoded(data@) == Some(d@),
            Err(e) => zstd_decoded(data@) is None && e == ArchiveError::Corruption,
        },
{
    match zstd::decode_all(data) {
        Ok(v) => Ok(v),
        Err(_) => Err(ArchiveError::Corruption),
    }
}

} // verus!
