use vstd::prelude::*;

verus! {

/// The lower bound on the chunker's bit parameter.
pub const MIN_CHUNK_BITS: usize = 1;

/// The upper bound on the chunker's bit parameter.
pub const MAX_CHUNK_BITS: usize = 32;

/// The bit parameter used when the archive does not configure another:
/// the target average chunk size is two to this power of bytes.
pub const DEFAULT_CHUNK_BITS: usize = 20;

/// The content-defined chunking of `data` with the given bit parameter:
/// the sequence of contiguous pieces the rolling-hash boundary predicate
/// cuts the buffer into.  A pure function of the parameter and the bytes.
pub uninterp spec fn chunks_of(bits: int, data: Seq<u8>) -> Seq<Seq<u8>>;

/// Relies on cdchunking::Chunker::slices over the cdchunking::ZPAQ
/// rolling-hash boundary predicate: the emitted slices are contiguous,
/// nonempty, cover the whole buffer in order, and depend only on the bit
/// parameter and the bytes.  The predicate's constructor and update shift
/// by 32 - bits, which confines the parameter to 1..=32.
#[verifier::external_body]
fn zpaq_chunks(bits: usize, data: &[u8]) -> (r: Vec<Vec<u8>>)
    requires
        MIN_CHUNK_BITS <= bits <= MAX_CHUNK_BITS,
    ensures
        r.deep_view() == chunks_of(bits as int, data@),
        r.deep_view().flatten() == data@,
        data@.len() == 0 ==> r@.len() == 0,
        forall|i: int| 0 <= i < r@.len() ==> #[trigger] r.deep_view()[i].len() > 0,
{
    let chunker = cdchunking::Chunker::new(cdchunking::ZPAQ::new(bits));
    let mut chunks: Vec<Vec<u8>> = Vec::new();
    for chunk in chunker.slices(data) {
        chunks.push(chunk.to_owned());
    }
    chunks
}

/// Split `data` into content-defined chunks.  The chunks are contiguous,
/// non-overlapping, and concatenate in order back to `data` exactly;
/// empty input yields no chunks, and every chunk is nonempty.  The same
/// bytes always yield the same chunks.
pub fn chunk_data(data: &[u8], bits: usize) -> (r: Vec<Vec<u8>>)
    requires
        MIN_CHUNK_BITS <= bits <= MAX_CHUNK_BITS,
    ensures
        r.deep_view() == chunks_of(bits as int, data@),
        r.deep_view().flatten() == data@,
        data@.len() == 0 ==> r@.len() == 0,
        forall|i: int| 0 <= i < r@.len() ==> #[trigger] r.deep_view()[i].len() > 0,
{
    zpaq_chunks(bits, data)
}

} // verus!
