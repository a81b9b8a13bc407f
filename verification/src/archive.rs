use vstd::prelude::*;
use crate::errors::ArchiveError;
use crate::store::Store;
use crate::chunker::{chunk_data, chunks_of, MIN_CHUNK_BITS, MAX_CHUNK_BITS};
use crate::hasher::{hash_chunk, sha3_512_hex};
use crate::compress::{zstd_compress, zstd_decompress, zstd_encoded, zstd_decoded};
use crate::encoding::{
    ADDRESS_SEP, join_seqs, split_seq, join_bytes, split_bytes, is_hex_byte, valid_address,
    sep_free, lemma_split_join,
};
use crate::paths::is_path_prefix_spec;
use crate::paths::is_path_prefix;
use crate::bytes::copy_bytes;

verus! {

/// A decoded file record: an archive name, the recorded total size, and
/// the ordered chunk addresses whose bytes concatenate to the content.
pub struct FileRecord {
    pub name: Vec<u8>,
    pub size: u64,
    pub chunks: Vec<Vec<u8>>,
}

/// The ordered chunk addresses of `data` under the given bit parameter.
pub open spec fn addrs_of(bits: int, data: Seq<u8>) -> Seq<Seq<u8>> {
    chunks_of(bits, data).map_values(|c: Seq<u8>| sha3_512_hex(c))
}

/// The file entry written for `data`: its byte length and its
/// delimiter-joined ordered address list.
pub open spec fn file_entry_of(bits: int, data: Seq<u8>) -> (int, Seq<u8>) {
    (data.len() as int, join_seqs(addrs_of(bits, data), ADDRESS_SEP))
}

/// The chunk map after storing the chunks `cs` in order: a fresh address
/// gains the compressed chunk, a present address is left untouched.
pub open spec fn chunks_after(m: Map<Seq<u8>, Seq<u8>>, cs: Seq<Seq<u8>>) -> Map<Seq<u8>, Seq<u8>>
    decreases cs.len(),
{
    if cs.len() == 0 {
        m
    } else {
        let m1 = chunks_after(m, cs.drop_last());
        let h = sha3_512_hex(cs.last());
        if m1.dom().contains(h) {
            m1
        } else {
            m1.insert(h, zstd_encoded(cs.last()))
        }
    }
}

/// The model transition a successful `put_file_data` makes: the file map
/// gains (or replaces) the record for `name`, the chunk map gains the
/// missing chunks of `data` and nothing else.
pub open spec fn put_file_post(
    f0: Map<Seq<u8>, (int, Seq<u8>)>,
    c0: Map<Seq<u8>, Seq<u8>>,
    f1: Map<Seq<u8>, (int, Seq<u8>)>,
    c1: Map<Seq<u8>, Seq<u8>>,
    bits: int,
    name: Seq<u8>,
    data: Seq<u8>,
) -> bool {
    &&& f1 == f0.insert(name, file_entry_of(bits, data))
    &&& c1 == chunks_after(c0, chunks_of(bits, data))
}

/// Content addressing is collision-free for `cs` over the store `c0`: a
/// chunk of `cs` whose address is already stored decodes to that very
/// chunk, and no two distinct chunks of `cs` share an address.  The
/// design assumes exactly this: two chunks with the same address are
/// byte-identical.
pub open spec fn store_consistent_for(c0: Map<Seq<u8>, Seq<u8>>, cs: Seq<Seq<u8>>) -> bool {
    &&& forall|i: int|
        0 <= i < cs.len() && c0.dom().contains(#[trigger] sha3_512_hex(cs[i]))
            ==> zstd_decoded(c0[sha3_512_hex(cs[i])]) == Some(cs[i])
    &&& forall|i: int, j: int|
        0 <= i < cs.len() && 0 <= j < cs.len() && #[trigger] sha3_512_hex(cs[i])
            == #[trigger] sha3_512_hex(cs[j]) ==> cs[i] == cs[j]
}

/// The ordered chunk addresses a persisted entry denotes.
pub open spec fn record_addrs(entry: (int, Seq<u8>)) -> Seq<Seq<u8>> {
    split_seq(entry.1, ADDRESS_SEP)
}

/// The bytes reconstruction yields from a chunk map and an ordered
/// address list: each address's bytes, decompressed, concatenated in
/// order; `Corruption` on a missing address or undecodable bytes.
pub open spec fn concat_chunks_model(c: Map<Seq<u8>, Seq<u8>>, addrs: Seq<Seq<u8>>) -> Result<
    Seq<u8>,
    ArchiveError,
>
    decreases addrs.len(),
{
    if addrs.len() == 0 {
        Ok(Seq::empty())
    } else {
        match concat_chunks_model(c, addrs.drop_last()) {
            Ok(prefix) => {
                if c.dom().contains(addrs.last()) {
                    match zstd_decoded(c[addrs.last()]) {
                        Some(d) => Ok(prefix + d),
                        None => Err(ArchiveError::Corruption),
                    }
                } else {
                    Err(ArchiveError::Corruption)
                }
            },
            Err(e) => Err(e),
        }
    }
}

/// What `get_file_data` returns, as a function of the store model.
pub open spec fn get_file_data_model(
    f: Map<Seq<u8>, (int, Seq<u8>)>,
    c: Map<Seq<u8>, Seq<u8>>,
    name: Seq<u8>,
) -> Result<Seq<u8>, ArchiveError> {
    if f.dom().contains(name) {
        concat_chunks_model(c, record_addrs(f[name]))
    } else {
        Err(ArchiveError::NotFound)
    }
}

/// What `get_file_record` returns, as a function of the file map.
pub open spec fn get_record_model(f: Map<Seq<u8>, (int, Seq<u8>)>, name: Seq<u8>) -> Result<
    (int, Seq<Seq<u8>>),
    ArchiveError,
> {
    if !f.dom().contains(name) {
        Err(ArchiveError::NotFound)
    } else if f[name].0 < 0 {
        Err(ArchiveError::Corruption)
    } else {
        Ok((f[name].0, record_addrs(f[name])))
    }
}

/// A hexadecimal address never holds the address delimiter.
proof fn lemma_hex_sep_free(a: Seq<u8>)
    requires
        valid_address(a),
    ensures
        sep_free(a, ADDRESS_SEP),
{
    assert forall|i: int| 0 <= i < a.len() implies #[trigger] a[i] != ADDRESS_SEP by {
        assert(is_hex_byte(a[i]));
    }
}

/// Storing chunks never disturbs what the store already held.
proof fn lemma_chunks_after_frame(m: Map<Seq<u8>, Seq<u8>>, cs: Seq<Seq<u8>>)
    ensures
        forall|h: Seq<u8>| #[trigger]
            m.dom().contains(h) ==> chunks_after(m, cs).dom().contains(h) && chunks_after(m, cs)[h]
                == m[h],
    decreases cs.len(),
{
    if cs.len() == 0 {
    } else {
        lemma_chunks_after_frame(m, cs.drop_last());
    }
}

/// An address is stored after `chunks_after` exactly when it was stored
/// before or belongs to one of the stored chunks.
proof fn lemma_chunks_after_dom(m: Map<Seq<u8>, Seq<u8>>, cs: Seq<Seq<u8>>)
    ensures
        forall|h: Seq<u8>|
            #[trigger] chunks_after(m, cs).dom().contains(h) <==> (m.dom().contains(h) || (
            exists|i: int| 0 <= i < cs.len() && #[trigger] sha3_512_hex(cs[i]) == h)),
    decreases cs.len(),
{
    if cs.len() == 0 {
    } else {
        let cs1 = cs.drop_last();
        lemma_chunks_after_dom(m, cs1);
        assert forall|h: Seq<u8>| #[trigger] chunks_after(m, cs).dom().contains(h) implies (
        m.dom().contains(h) || (exists|i: int|
            0 <= i < cs.len() && #[trigger] sha3_512_hex(cs[i]) == h)) by {
            if chunks_after(m, cs1).dom().contains(h) {
                if !m.dom().contains(h) {
                    let i = choose|i: int|
                        0 <= i < cs1.len() && #[trigger] sha3_512_hex(cs1[i]) == h;
                    assert(cs1[i] == cs[i]);
                    assert(sha3_512_hex(cs[i]) == h);
                }
            } else {
                assert(h == sha3_512_hex(cs.last()));
                assert(sha3_512_hex(cs[cs.len() - 1]) == h);
            }
        }
        assert forall|h: Seq<u8>|
            (m.dom().contains(h) || (exists|i: int|
                0 <= i < cs.len() && #[trigger] sha3_512_hex(cs[i]) == h)) implies #[trigger] chunks_after(
            m,
            cs,
        ).dom().contains(h) by {
            if m.dom().contains(h) {
                assert(chunks_after(m, cs1).dom().contains(h));
            } else {
                let i = choose|i: int| 0 <= i < cs.len() && #[trigger] sha3_512_hex(cs[i]) == h;
                if i < cs.len() - 1 {
                    assert(cs1[i] == cs[i]);
                    assert(sha3_512_hex(cs1[i]) == h);
                    assert(chunks_after(m, cs1).dom().contains(h));
                } else {
                    assert(h == sha3_512_hex(cs.last()));
                }
            }
        }
    }
}

/// Storing chunks whose addresses are all already present changes
/// nothing: chunk writes are idempotent.
proof fn lemma_chunks_after_all_present(m: Map<Seq<u8>, Seq<u8>>, cs: Seq<Seq<u8>>)
    requires
        forall|i: int| 0 <= i < cs.len() ==> m.dom().contains(sha3_512_hex(#[trigger] cs[i])),
    ensures
        chunks_after(m, cs) == m,
    decreases cs.len(),
{
    if cs.len() == 0 {
    } else {
        let cs1 = cs.drop_last();
        assert(forall|i: int| 0 <= i < cs1.len() ==> cs1[i] == #[trigger] cs[i]);
        lemma_chunks_after_all_present(m, cs1);
        assert(m.dom().contains(sha3_512_hex(cs[cs.len() - 1])));
    }
}

/// Deduplication: storing the chunks of the same bytes a second time
/// leaves the chunk store exactly as it was after the first time — the
/// second archive operation adds zero chunks, whatever the store held
/// before.
pub proof fn lemma_dedup_second_put(c0: Map<Seq<u8>, Seq<u8>>, bits: int, data: Seq<u8>)
    ensures
        chunks_after(chunks_after(c0, chunks_of(bits, data)), chunks_of(bits, data))
            == chunks_after(c0, chunks_of(bits, data)),
{
    let cs = chunks_of(bits, data);
    let c1 = chunks_after(c0, cs);
    lemma_chunks_after_dom(c0, cs);
    assert forall|i: int| 0 <= i < cs.len() implies c1.dom().contains(
        sha3_512_hex(#[trigger] cs[i]),
    ) by {
        assert(exists|j: int|
            0 <= j < cs.len() && #[trigger] sha3_512_hex(cs[j]) == sha3_512_hex(cs[i]));
    }
    lemma_chunks_after_all_present(c1, cs);
}

/// Deduplication across archive operations: when the same bytes are
/// archived a second time, under any name, the chunk store after the
/// second operation is exactly the chunk store after the first — the
/// second operation adds zero chunks.
pub proof fn lemma_dedup_two_archives(
    f0: Map<Seq<u8>, (int, Seq<u8>)>,
    c0: Map<Seq<u8>, Seq<u8>>,
    f1: Map<Seq<u8>, (int, Seq<u8>)>,
    c1: Map<Seq<u8>, Seq<u8>>,
    f2: Map<Seq<u8>, (int, Seq<u8>)>,
    c2: Map<Seq<u8>, Seq<u8>>,
    bits: int,
    name1: Seq<u8>,
    name2: Seq<u8>,
    data: Seq<u8>,
)
    requires
        put_file_post(f0, c0, f1, c1, bits, name1, data),
        put_file_post(f1, c1, f2, c2, bits, name2, data),
    ensures
        c2 == c1,
{
    lemma_dedup_second_put(c0, bits, data);
}

/// A chunk map holding, under each of `addrs` in order, bytes that
/// decode to the corresponding chunk of `cs`, reconstructs the
/// concatenation of `cs`.
proof fn lemma_concat_reconstructs(
    c: Map<Seq<u8>, Seq<u8>>,
    addrs: Seq<Seq<u8>>,
    cs: Seq<Seq<u8>>,
    k: int,
)
    requires
        addrs.len() == cs.len(),
        0 <= k <= cs.len(),
        forall|j: int|
            0 <= j < cs.len() ==> c.dom().contains(#[trigger] addrs[j]) && zstd_decoded(
                c[addrs[j]],
            ) == Some(cs[j]),
    ensures
        concat_chunks_model(c, addrs.take(k)) == Ok::<Seq<u8>, ArchiveError>(cs.take(k).flatten()),
    decreases k,
{
    if k == 0 {
        assert(addrs.take(0) =~= Seq::<Seq<u8>>::empty());
        assert(cs.take(0) =~= Seq::<Seq<u8>>::empty());
    } else {
        lemma_concat_reconstructs(c, addrs, cs, k - 1);
        assert(addrs.take(k).drop_last() =~= addrs.take(k - 1));
        assert(addrs.take(k).last() == addrs[k - 1]);
        assert(cs.take(k) =~= cs.take(k - 1).push(cs[k - 1]));
        cs.take(k - 1).lemma_flatten_push(cs[k - 1]);
    }
}

/// A reconstruction that fails on a prefix of the address list fails the
/// same way on the whole list.
proof fn lemma_concat_err_extends(
    c: Map<Seq<u8>, Seq<u8>>,
    addrs: Seq<Seq<u8>>,
    k: int,
    e: ArchiveError,
)
    requires
        0 <= k <= addrs.len(),
        concat_chunks_model(c, addrs.take(k)) == Err::<Seq<u8>, ArchiveError>(e),
    ensures
        concat_chunks_model(c, addrs) == Err::<Seq<u8>, ArchiveError>(e),
    decreases addrs.len() - k,
{
    if k == addrs.len() {
        assert(addrs.take(k) =~= addrs);
    } else {
        assert(addrs.take(k + 1).drop_last() =~= addrs.take(k));
        lemma_concat_err_extends(c, addrs, k + 1, e);
    }
}

/// The archive: a chunking parameter and the persistence backend the
/// chunk store and file index live in.
pub struct Archive {
    pub store: Store,
    pub chunk_bits: usize,
}

impl Archive {
    pub open spec fn wf(self) -> bool {
        &&& self.store.wf()
        &&& MIN_CHUNK_BITS <= self.chunk_bits <= MAX_CHUNK_BITS
    }

    /// An archive over the given backend with the given target average
    /// chunk size of two to `chunk_bits` bytes.
    pub fn new(store: Store, chunk_bits: usize) -> (a: Archive)
        requires
            store.wf(),
            MIN_CHUNK_BITS <= chunk_bits <= MAX_CHUNK_BITS,
        ensures
            a.wf(),
            a.store == store,
            a.chunk_bits == chunk_bits,
    {
        Archive { store, chunk_bits }
    }

    /// Archive `data` under `name`: chunk it, store each chunk under its
    /// content address (already-present addresses are left untouched:
    /// deduplication), and write the file record, replacing any prior
    /// record for `name`.  On success the store is exactly
    /// `put_file_post`, and — provided content addressing is
    /// collision-free for these chunks — reading `name` back yields
    /// exactly `data`.  On failure the file index is unchanged: only
    /// (idempotent, content-addressed) chunk writes of this very data
    /// may have happened.
    #[verifier::loop_isolation(false)]
    pub fn put_file_data(&mut self, name: &[u8], data: &[u8]) -> (r: Result<(), ArchiveError>)
        requires
            old(self).wf(),
            data@.len() < 0x8000_0000_0000_0000,
        ensures
            final(self).wf(),
            final(self).chunk_bits == old(self).chunk_bits,
            final(self).store.is_mem() <==> old(self).store.is_mem(),
            final(self).store.in_tx() == old(self).store.in_tx(),
            old(self).store.in_tx() ==> final(self).store.saved_files_model() == old(self).store.saved_files_model() && final(self).store.saved_chunks_model() == old(self).store.saved_chunks_model(),
            r matches Err(e) ==> e == ArchiveError::IOError,
            r is Ok ==> put_file_post(
                old(self).store.files_model(),
                old(self).store.chunks_model(),
                final(self).store.files_model(),
                final(self).store.chunks_model(),
                old(self).chunk_bits as int,
                name@,
                data@,
            ),
            r is Ok ==> (store_consistent_for(
                old(self).store.chunks_model(),
                chunks_of(old(self).chunk_bits as int, data@),
            ) ==> get_file_data_model(
                final(self).store.files_model(),
                final(self).store.chunks_model(),
                name@,
            ) == Ok::<Seq<u8>, ArchiveError>(data@)),
            r is Err ==> final(self).store.files_model() == old(self).store.files_model() && (
            exists|k: int|
                0 <= k <= chunks_of(old(self).chunk_bits as int, data@).len() && final(self).store.chunks_model() == chunks_after(
                    old(self).store.chunks_model(),
                    chunks_of(old(self).chunk_bits as int, data@).take(k),
                )),
    {
        let bits = self.chunk_bits;
        let ghost gbits = bits as int;
        let ghost cs = chunks_of(gbits, data@);
        let ghost ads = addrs_of(gbits, data@);
        let ghost f0 = self.store.files_model();
        let ghost c0 = self.store.chunks_model();
        let ghost tx0 = self.store.in_tx();
        let ghost mem0 = self.store.is_mem();
        let ghost sfm0 = self.store.saved_files_model();
        let ghost scm0 = self.store.saved_chunks_model();
        let chunks = chunk_data(data, bits);
        proof {
            assert(cs.take(0) =~= Seq::<Seq<u8>>::empty());
            assert(ads.take(0) =~= Seq::<Seq<u8>>::empty());
        }
        let mut addrs: Vec<Vec<u8>> = Vec::new();
        proof {
            assert(addrs.deep_view() =~= ads.take(0));
        }
        let mut i: usize = 0;
        while i < chunks.len()
            invariant
                0 <= i <= cs.len(),
                chunks.deep_view() == cs,
                chunks@.len() == cs.len(),
                self.wf(),
                self.chunk_bits == bits,
                MIN_CHUNK_BITS <= bits <= MAX_CHUNK_BITS,
                data@.len() < 0x8000_0000_0000_0000,
                cs == chunks_of(gbits, data@),
                ads == addrs_of(gbits, data@),
                gbits == bits as int,
                cs.flatten() == data@,
                self.store.is_mem() == mem0,
                self.store.in_tx() == tx0,
                self.store.files_model() == f0,
                tx0 ==> self.store.saved_files_model() == sfm0 && self.store.saved_chunks_model()
                    == scm0,
                self.store.chunks_model() == chunks_after(c0, cs.take(i as int)),
                addrs.deep_view() == ads.take(i as int),
                forall|j: int| 0 <= j < i ==> valid_address(#[trigger] ads[j]),
                store_consistent_for(c0, cs) ==> forall|j: int|
                    0 <= j < i ==> self.store.chunks_model().dom().contains(#[trigger] ads[j])
                        && zstd_decoded(self.store.chunks_model()[ads[j]]) == Some(cs[j]),
            decreases cs.len() - i,
        {
            let ghost cur = self.store.chunks_model();
            let chunk = &chunks[i];
            proof {
                assert(chunks.deep_view()[i as int] == chunks@[i as int]@);
                assert(chunk@ == cs[i as int]);
                assert(ads[i as int] == sha3_512_hex(cs[i as int]));
            }
            let addr = hash_chunk(chunk.as_slice());
            let ghost h = sha3_512_hex(cs[i as int]);
            let present = match self.store.has_chunk(addr.as_slice()) {
                Ok(b) => b,
                Err(e) => {
                    proof {
                        assert(self.store.chunks_model() == chunks_after(c0, cs.take(i as int)));
                    }
                    return Err(e);
                },
            };
            if !present {
                let compressed = match zstd_compress(chunk.as_slice()) {
                    Ok(cdata) => cdata,
                    Err(e) => {
                        proof {
                            assert(self.store.chunks_model() == chunks_after(
                                c0,
                                cs.take(i as int),
                            ));
                        }
                        return Err(e);
                    },
                };
                match self.store.put_chunk_raw(addr.as_slice(), compressed.as_slice()) {
                    Ok(()) => {},
                    Err(e) => {
                        proof {
                            assert(self.store.chunks_model() == chunks_after(
                                c0,
                                cs.take(i as int),
                            ));
                        }
                        return Err(e);
                    },
                }
            }
            let ghost dv0 = addrs.deep_view();
            addrs.push(addr);
            proof {
                assert(addrs.deep_view() =~~= dv0.push(h));
                assert(ads.take(i as int + 1) =~= ads.take(i as int).push(ads[i as int]));
                assert(cs.take(i as int + 1).drop_last() =~= cs.take(i as int));
                assert(cs.take(i as int + 1).last() == cs[i as int]);
                assert(self.store.chunks_model() == chunks_after(c0, cs.take(i as int + 1)));
                if store_consistent_for(c0, cs) {
                    let newm = self.store.chunks_model();
                    lemma_chunks_after_dom(c0, cs.take(i as int));
                    assert forall|j: int|
                        0 <= j < i + 1 implies newm.dom().contains(#[trigger] ads[j])
                            && zstd_decoded(newm[ads[j]]) == Some(cs[j]) by {
                        if j < i {
                            assert(cur.dom().contains(ads[j]));
                            assert(zstd_decoded(cur[ads[j]]) == Some(cs[j]));
                            assert(newm.dom().contains(ads[j]) && newm[ads[j]] == cur[ads[j]]);
                        } else {
                            if present {
                                assert(cur.dom().contains(h));
                                if c0.dom().contains(h) {
                                    lemma_chunks_after_frame(c0, cs.take(i as int));
                                    assert(cur[h] == c0[h]);
                                    assert(zstd_decoded(c0[h]) == Some(cs[i as int]));
                                } else {
                                    let j2 = choose|j2: int|
                                        0 <= j2 < cs.take(i as int).len() && #[trigger] sha3_512_hex(
                                            cs.take(i as int)[j2],
                                        ) == h;
                                    assert(cs.take(i as int)[j2] == cs[j2]);
                                    assert(sha3_512_hex(cs[j2]) == sha3_512_hex(cs[i as int]));
                                    assert(cs[j2] == cs[i as int]);
                                    assert(ads[j2] == h);
                                    assert(zstd_decoded(cur[ads[j2]]) == Some(cs[j2]));
                                }
                            } else {
                                assert(newm == cur.insert(h, zstd_encoded(cs[i as int])));
                            }
                        }
                    }
                }
            }
            i = i + 1;
        }
        proof {
            assert(cs.take(cs.len() as int) =~= cs);
            assert(ads.take(ads.len() as int) =~= ads);
            assert(ads.len() == cs.len());
        }
        let joined = join_bytes(&addrs, ADDRESS_SEP);
        let size = data.len() as i64;
        match self.store.put_file_row(name, size, joined.as_slice()) {
            Ok(()) => {},
            Err(e) => {
                proof {
                    assert(self.store.chunks_model() == chunks_after(c0, cs.take(cs.len() as int)));
                }
                return Err(e);
            },
        }
        proof {
            assert(self.store.files_model() == f0.insert(name@, (data@.len() as int, joined@)));
            assert(joined@ == join_seqs(ads, ADDRESS_SEP));
            assert(self.store.files_model() == f0.insert(name@, file_entry_of(gbits, data@)));
            if store_consistent_for(c0, cs) {
                let c1 = self.store.chunks_model();
                let f1 = self.store.files_model();
                assert forall|j: int| 0 <= j < ads.len() implies sep_free(
                    #[trigger] ads[j],
                    ADDRESS_SEP,
                ) by {
                    lemma_hex_sep_free(ads[j]);
                }
                if ads.len() == 1 {
                    assert(valid_address(ads[0]));
                }
                lemma_split_join(ads, ADDRESS_SEP);
                assert(record_addrs(file_entry_of(gbits, data@)) == ads);
                lemma_concat_reconstructs(c1, ads, cs, cs.len() as int);
                assert(ads.take(cs.len() as int) =~= ads);
                assert(cs.take(cs.len() as int) =~= cs);
                assert(concat_chunks_model(c1, ads) == Ok::<Seq<u8>, ArchiveError>(data@));
                assert(f1.dom().contains(name@));
                assert(f1[name@] == file_entry_of(gbits, data@));
            }
        }
        Ok(())
    }

    /// Reconstruct the bytes archived under `name`: fetch each chunk the
    /// record references in order, decompress, concatenate.  `NotFound`
    /// if no record holds the name; `Corruption` if the record
    /// references an address the chunk store lacks or bytes that do not
    /// decompress.
    pub fn get_file_data(&self, name: &[u8]) -> (r: Result<Vec<u8>, ArchiveError>)
        requires
            self.wf(),
        ensures
            r matches Ok(v) ==> get_file_data_model(
                self.store.files_model(),
                self.store.chunks_model(),
                name@,
            ) == Ok::<Seq<u8>, ArchiveError>(v@),
            r matches Err(e) ==> e == ArchiveError::IOError || get_file_data_model(
                self.store.files_model(),
                self.store.chunks_model(),
                name@,
            ) == Err::<Seq<u8>, ArchiveError>(e),
            self.store.is_mem() ==> !(r == Err::<Vec<u8>, ArchiveError>(ArchiveError::IOError)),
    {
        let ghost fm = self.store.files_model();
        let ghost cm = self.store.chunks_model();
        let row = match self.store.get_file_row(name) {
            Ok(Some(row)) => row,
            Ok(None) => {
                return Err(ArchiveError::NotFound);
            },
            Err(e) => {
                return Err(e);
            },
        };
        let ghost entry = fm[name@];
        let joined = row.1;
        let addrs = split_bytes(joined.as_slice(), ADDRESS_SEP);
        proof {
            assert(addrs.deep_view() == record_addrs(entry));
        }
        let ghost ra = record_addrs(entry);
        let mut result: Vec<u8> = Vec::new();
        proof {
            assert(ra.take(0) =~= Seq::<Seq<u8>>::empty());
            assert(result@ =~= Seq::<u8>::empty());
        }
        let mut i: usize = 0;
        while i < addrs.len()
            invariant
                0 <= i <= ra.len(),
                addrs.deep_view() == ra,
                addrs@.len() == ra.len(),
                self.wf(),
                self.store.files_model() == fm,
                self.store.chunks_model() == cm,
                fm.dom().contains(name@),
                entry == fm[name@],
                ra == record_addrs(entry),
                concat_chunks_model(cm, ra.take(i as int)) == Ok::<Seq<u8>, ArchiveError>(result@),
            decreases ra.len() - i,
        {
            let addr = &addrs[i];
            proof {
                assert(addrs.deep_view()[i as int] == addrs@[i as int]@);
                assert(addr@ == ra[i as int]);
                assert(ra.take(i as int + 1).drop_last() =~= ra.take(i as int));
                assert(ra.take(i as int + 1).last() == ra[i as int]);
            }
            let comp = match self.store.get_chunk_raw(addr.as_slice()) {
                Ok(Some(cdata)) => cdata,
                Ok(None) => {
                    proof {
                        assert(concat_chunks_model(cm, ra.take(i as int + 1)) == Err::<
                            Seq<u8>,
                            ArchiveError,
                        >(ArchiveError::Corruption));
                        lemma_concat_err_extends(cm, ra, i as int + 1, ArchiveError::Corruption);
                    }
                    return Err(ArchiveError::Corruption);
                },
                Err(e) => {
                    return Err(e);
                },
            };
            let piece = match zstd_decompress(comp.as_slice()) {
                Ok(p) => p,
                Err(_) => {
                    proof {
                        assert(zstd_decoded(cm[ra[i as int]]) is None);
                        assert(concat_chunks_model(cm, ra.take(i as int + 1)) == Err::<
                            Seq<u8>,
                            ArchiveError,
                        >(ArchiveError::Corruption));
                        lemma_concat_err_extends(cm, ra, i as int + 1, ArchiveError::Corruption);
                    }
                    return Err(ArchiveError::Corruption);
                },
            };
            let mut piece = piece;
            result.append(&mut piece);
            proof {
                assert(concat_chunks_model(cm, ra.take(i as int + 1)) == Ok::<
                    Seq<u8>,
                    ArchiveError,
                >(result@));
            }
            i = i + 1;
        }
        proof {
            assert(ra.take(ra.len() as int) =~= ra);
        }
        Ok(result)
    }

    /// The decoded record archived under `name`: its recorded size and
    /// ordered chunk addresses.
    pub fn get_file_record(&self, name: &[u8]) -> (r: Result<FileRecord, ArchiveError>)
        requires
            self.wf(),
        ensures
            r matches Ok(rec) ==> rec.name@ == name@ && get_record_model(
                self.store.files_model(),
                name@,
            ) == Ok::<(int, Seq<Seq<u8>>), ArchiveError>((rec.size as int, rec.chunks.deep_view())),
            r matches Err(e) ==> e == ArchiveError::IOError || get_record_model(
                self.store.files_model(),
                name@,
            ) == Err::<(int, Seq<Seq<u8>>), ArchiveError>(e),
            self.store.is_mem() ==> !(r == Err::<FileRecord, ArchiveError>(ArchiveError::IOError)),
    {
        let row = match self.store.get_file_row(name) {
            Ok(Some(row)) => row,
            Ok(None) => {
                return Err(ArchiveError::NotFound);
            },
            Err(e) => {
                return Err(e);
            },
        };
        if row.0 < 0 {
            return Err(ArchiveError::Corruption);
        }
        let chunks = split_bytes(row.1.as_slice(), ADDRESS_SEP);
        Ok(FileRecord { name: copy_bytes(name), size: row.0 as u64, chunks })
    }

    /// Every archived name, each exactly once, optionally restricted to
    /// those sharing `prefix` as a component-wise path prefix.  Order is
    /// not guaranteed.
    pub fn list_files(&self, prefix: Option<&[u8]>) -> (r: Result<Vec<Vec<u8>>, ArchiveError>)
        requires
            self.wf(),
        ensures
            r matches Err(e) ==> e == ArchiveError::IOError,
            self.store.is_mem() ==> r is Ok,
            r matches Ok(v) ==> v.deep_view().no_duplicates() && (forall|n: Seq<u8>|
                #[trigger] v.deep_view().contains(n) <==> (self.store.files_model().dom().contains(
                    n,
                ) && (match prefix {
                    Some(p) => is_path_prefix_spec(p@, n),
                    None => true,
                }))),
    {
        let names = match self.store.list_names() {
            Ok(v) => v,
            Err(e) => {
                return Err(e);
            },
        };
        match prefix {
            None => Ok(names),
            Some(p) => {
                let mut out: Vec<Vec<u8>> = Vec::new();
                let mut i: usize = 0;
                while i < names.len()
                    invariant
                        0 <= i <= names@.len(),
                        names@.len() == names.deep_view().len(),
                        names.deep_view().no_duplicates(),
                        forall|n: Seq<u8>|
                            #[trigger] names.deep_view().contains(n)
                                <==> self.store.files_model().dom().contains(n),
                        out.deep_view().no_duplicates(),
                        forall|n: Seq<u8>|
                            #[trigger] out.deep_view().contains(n) <==> (exists|j: int|
                                0 <= j < i && names.deep_view()[j] == n && is_path_prefix_spec(
                                    p@,
                                    n,
                                )),
                    decreases names@.len() - i,
                {
                    let keep = is_path_prefix(p, names[i].as_slice());
                    proof {
                        assert(names.deep_view()[i as int] == names@[i as int]@);
                    }
                    if keep {
                        let ghost dv0 = out.deep_view();
                        let ghost nm = names.deep_view()[i as int];
                        proof {
                            if dv0.contains(nm) {
                                let j = choose|j: int|
                                    0 <= j < i && names.deep_view()[j] == nm
                                        && is_path_prefix_spec(p@, nm);
                                assert(names.deep_view()[j] == names.deep_view()[i as int]);
                                assert(false);
                            }
                        }
                        out.push(copy_bytes(names[i].as_slice()));
                        proof {
                            assert(out.deep_view() =~~= dv0.push(nm));
                            assert forall|a: int, b: int|
                                0 <= a < out.deep_view().len() && 0 <= b < out.deep_view().len()
                                    && a != b implies out.deep_view()[a] != out.deep_view()[b] by {
                                if a < dv0.len() && b < dv0.len() {
                                } else if a < dv0.len() {
                                    assert(out.deep_view()[b] == nm);
                                    if out.deep_view()[a] == nm {
                                        assert(dv0.contains(nm));
                                    }
                                } else {
                                    assert(out.deep_view()[a] == nm);
                                    if out.deep_view()[b] == nm {
                                        assert(dv0.contains(nm));
                                    }
                                }
                            }
                            assert forall|n: Seq<u8>| #[trigger] out.deep_view().contains(n)
                                implies (exists|j: int|
                                0 <= j < i + 1 && names.deep_view()[j] == n && is_path_prefix_spec(
                                    p@,
                                    n,
                                )) by {
                                if dv0.contains(n) {
                                    let j = choose|j: int|
                                        0 <= j < i && names.deep_view()[j] == n
                                            && is_path_prefix_spec(p@, n);
                                    assert(0 <= j < i + 1 && names.deep_view()[j] == n
                                        && is_path_prefix_spec(p@, n));
                                } else {
                                    assert(n == nm);
                                    assert(0 <= i < i + 1 && names.deep_view()[i as int] == n
                                        && is_path_prefix_spec(p@, n));
                                }
                            }
                            assert forall|n: Seq<u8>|
                                (exists|j: int|
                                    0 <= j < i + 1 && names.deep_view()[j] == n
                                        && is_path_prefix_spec(p@, n)) implies #[trigger] out
                                .deep_view().contains(n) by {
                                let j = choose|j: int|
                                    0 <= j < i + 1 && names.deep_view()[j] == n
                                        && is_path_prefix_spec(p@, n);
                                if j < i {
                                    assert(dv0.contains(n));
                                    assert(out.deep_view()[choose|x: int|
                                        0 <= x < dv0.len() && dv0[x] == n] == n);
                                } else {
                                    assert(out.deep_view()[dv0.len() as int] == n);
                                }
                            }
                        }
                    } else {
                        proof {
                            assert forall|n: Seq<u8>| #[trigger] out.deep_view().contains(n)
                                implies (exists|j: int|
                                0 <= j < i + 1 && names.deep_view()[j] == n && is_path_prefix_spec(
                                    p@,
                                    n,
                                )) by {
                                let j = choose|j: int|
                                    0 <= j < i && names.deep_view()[j] == n && is_path_prefix_spec(
                                        p@,
                                        n,
                                    );
                                assert(0 <= j < i + 1 && names.deep_view()[j] == n
                                    && is_path_prefix_spec(p@, n));
                            }
                            assert forall|n: Seq<u8>|
                                (exists|j: int|
                                    0 <= j < i + 1 && names.deep_view()[j] == n
                                        && is_path_prefix_spec(p@, n)) implies #[trigger] out
                                .deep_view().contains(n) by {
                                let j = choose|j: int|
                                    0 <= j < i + 1 && names.deep_view()[j] == n
                                        && is_path_prefix_spec(p@, n);
                                assert(j != i);
                                assert(0 <= j < i && names.deep_view()[j] == n
                                    && is_path_prefix_spec(p@, n));
                            }
                        }
                    }
                    i = i + 1;
                }
                proof {
                    assert forall|n: Seq<u8>| #[trigger] out.deep_view().contains(n) implies (
                    self.store.files_model().dom().contains(n) && is_path_prefix_spec(p@, n)) by {
                        let j = choose|j: int|
                            0 <= j < names.deep_view().len() && names.deep_view()[j] == n
                                && is_path_prefix_spec(p@, n);
                        assert(names.deep_view().contains(n));
                    }
                    assert forall|n: Seq<u8>|
                        (self.store.files_model().dom().contains(n) && is_path_prefix_spec(
                            p@,
                            n,
                        )) implies #[trigger] out.deep_view().contains(n) by {
                        assert(names.deep_view().contains(n));
                        let j = choose|j: int|
                            0 <= j < names.deep_view().len() && names.deep_view()[j] == n;
                        assert(0 <= j < names.deep_view().len() && names.deep_view()[j] == n
                            && is_path_prefix_spec(p@, n));
                    }
                }
                Ok(out)
            },
        }
    }
}

} // verus!
