use vstd::prelude::*;
use crate::errors::ArchiveError;
use crate::assoc::{
    pairs_map, keys_of, unique_keys, lemma_pairs_map_dom, lemma_pairs_map_get,
    lemma_pairs_map_update, lemma_pairs_map_push_fresh, lemma_pairs_map_len,
};
use crate::bytes::{bytes_eq, copy_bytes};
use crate::sqlite::{
    sq_files, sq_chunks, sq_saved_files, sq_saved_chunks, sqlite_open, sqlite_init, sqlite_begin,
    sqlite_commit, sqlite_rollback, sqlite_get_file, sqlite_put_file, sqlite_get_chunk,
    sqlite_has_chunk, sqlite_put_chunk, sqlite_list_names, sqlite_chunk_count,
};

verus! {

/// One persisted file record row: the archive name, the recorded size,
/// and the serialized ordered chunk-address list.
pub struct FileRow {
    pub name: Vec<u8>,
    pub size: i64,
    pub chunks: Vec<u8>,
}

/// One persisted chunk row: the content address and the compressed bytes.
pub struct ChunkRow {
    pub hash: Vec<u8>,
    pub data: Vec<u8>,
}

/// The in-memory backend's two tables as they stood at `begin`.
pub struct MemSnap {
    pub files: Vec<FileRow>,
    pub chunks: Vec<ChunkRow>,
}

/// The in-memory persistence backend: the same two tables the durable
/// backend keeps, held as association lists with unique keys, plus the
/// snapshot an open transaction would roll back to.
pub struct MemBackend {
    pub files: Vec<FileRow>,
    pub chunks: Vec<ChunkRow>,
    pub saved: Option<MemSnap>,
}

/// The durable persistence backend: a SQLite database and whether a
/// transaction is open on it.
pub struct SqliteBackend {
    pub conn: rusqlite::Connection,
    pub in_tx: bool,
}

/// The file rows as an association list of plain values.
pub open spec fn file_pairs(rows: Seq<FileRow>) -> Seq<(Seq<u8>, (int, Seq<u8>))> {
    rows.map_values(|r: FileRow| (r.name@, (r.size as int, r.chunks@)))
}

/// The chunk rows as an association list of plain values.
pub open spec fn chunk_pairs(rows: Seq<ChunkRow>) -> Seq<(Seq<u8>, Seq<u8>)> {
    rows.map_values(|r: ChunkRow| (r.hash@, r.data@))
}

impl MemBackend {
    pub open spec fn files_map(self) -> Map<Seq<u8>, (int, Seq<u8>)> {
        pairs_map(file_pairs(self.files@))
    }

    pub open spec fn chunks_map(self) -> Map<Seq<u8>, Seq<u8>> {
        pairs_map(chunk_pairs(self.chunks@))
    }

    pub open spec fn saved_files_map(self) -> Map<Seq<u8>, (int, Seq<u8>)> {
        match self.saved {
            Some(s) => pairs_map(file_pairs(s.files@)),
            None => self.files_map(),
        }
    }

    pub open spec fn saved_chunks_map(self) -> Map<Seq<u8>, Seq<u8>> {
        match self.saved {
            Some(s) => pairs_map(chunk_pairs(s.chunks@)),
            None => self.chunks_map(),
        }
    }

    pub open spec fn wf(self) -> bool {
        &&& unique_keys(file_pairs(self.files@))
        &&& unique_keys(chunk_pairs(self.chunks@))
        &&& match self.saved {
            Some(s) => unique_keys(file_pairs(s.files@)) && unique_keys(chunk_pairs(s.chunks@)),
            None => true,
        }
    }
}

/// The persistence backend the archive runs against: in-memory for
/// tests, SQLite for durable production use.  Both expose the same
/// operations with the same contracts, stated over the maps the two
/// tables denote.
pub enum Store {
    Mem(MemBackend),
    Db(SqliteBackend),
}

impl Store {
    /// Name -> (recorded size, serialized chunk-address list).
    pub open spec fn files_model(self) -> Map<Seq<u8>, (int, Seq<u8>)> {
        match self {
            Store::Mem(m) => m.files_map(),
            Store::Db(d) => sq_files(d.conn),
        }
    }

    /// Chunk address -> compressed chunk bytes.
    pub open spec fn chunks_model(self) -> Map<Seq<u8>, Seq<u8>> {
        match self {
            Store::Mem(m) => m.chunks_map(),
            Store::Db(d) => sq_chunks(d.conn),
        }
    }

    /// The file table as it stood when the open transaction began.
    pub open spec fn saved_files_model(self) -> Map<Seq<u8>, (int, Seq<u8>)> {
        match self {
            Store::Mem(m) => m.saved_files_map(),
            Store::Db(d) => sq_saved_files(d.conn),
        }
    }

    /// The chunk table as it stood when the open transaction began.
    pub open spec fn saved_chunks_model(self) -> Map<Seq<u8>, Seq<u8>> {
        match self {
            Store::Mem(m) => m.saved_chunks_map(),
            Store::Db(d) => sq_saved_chunks(d.conn),
        }
    }

    /// Whether a transaction is open.
    pub open spec fn in_tx(self) -> bool {
        match self {
            Store::Mem(m) => m.saved is Some,
            Store::Db(d) => d.in_tx,
        }
    }

    pub open spec fn wf(self) -> bool {
        match self {
            Store::Mem(m) => m.wf(),
            Store::Db(_) => true,
        }
    }

    /// Whether this is the in-memory backend, whose operations never fail.
    pub open spec fn is_mem(self) -> bool {
        self is Mem
    }

    /// A fresh, empty in-memory store.
    pub fn open_memory() -> (s: Store)
        ensures
            s.wf(),
            !s.in_tx(),
            s.is_mem(),
            s.files_model() == Map::<Seq<u8>, (int, Seq<u8>)>::empty(),
            s.chunks_model() == Map::<Seq<u8>, Seq<u8>>::empty(),
    {
        let m = MemBackend { files: Vec::new(), chunks: Vec::new(), saved: None };
        proof {
            assert(file_pairs(m.files@) =~= Seq::<(Seq<u8>, (int, Seq<u8>))>::empty());
            assert(chunk_pairs(m.chunks@) =~= Seq::<(Seq<u8>, Seq<u8>)>::empty());
        }
        Store::Mem(m)
    }

    /// Open (creating schema if absent) the durable store at `path`.
    /// Schema creation is idempotent and safe on every open.
    pub fn open_sqlite(path: &str) -> (r: Result<Store, ArchiveError>)
        ensures
            r matches Ok(s) ==> s.wf() && !s.in_tx() && !s.is_mem(),
            r matches Err(e) ==> e == ArchiveError::IOError,
    {
        let conn = match sqlite_open(path) {
            Ok(c) => c,
            Err(e) => {
                return Err(e);
            },
        };
        let mut conn = conn;
        match sqlite_init(&mut conn) {
            Ok(()) => Ok(Store::Db(SqliteBackend { conn, in_tx: false })),
            Err(e) => Err(e),
        }
    }

    /// Begin a transaction: a later rollback restores exactly the
    /// current contents.
    pub fn begin(&mut self) -> (r: Result<(), ArchiveError>)
        requires
            old(self).wf(),
            !old(self).in_tx(),
        ensures
            r matches Err(e) ==> e == ArchiveError::IOError,
            final(self).wf(),
            final(self).is_mem() <==> old(self).is_mem(),
            final(self).files_model() == old(self).files_model(),
            final(self).chunks_model() == old(self).chunks_model(),
            r is Ok ==> final(self).in_tx() && final(self).saved_files_model() == old(self).files_model() && final(self).saved_chunks_model() == old(self).chunks_model(),
            r is Err ==> !final(self).in_tx(),
            old(self).is_mem() ==> r is Ok,
    {
        match self {
            Store::Mem(m) => {
                let sf = copy_file_rows(&m.files);
                let sc = copy_chunk_rows(&m.chunks);
                m.saved = Some(MemSnap { files: sf, chunks: sc });
                Ok(())
            },
            Store::Db(d) => {
                match sqlite_begin(&mut d.conn) {
                    Ok(()) => {
                        d.in_tx = true;
                        Ok(())
                    },
                    Err(e) => {
                        d.in_tx = false;
                        Err(e)
                    },
                }
            },
        }
    }

    /// Commit the open transaction: the current contents, unchanged,
    /// become durable.
    pub fn commit(&mut self) -> (r: Result<(), ArchiveError>)
        requires
            old(self).wf(),
            old(self).in_tx(),
        ensures
            r matches Err(e) ==> e == ArchiveError::IOError,
            final(self).wf(),
            final(self).is_mem() <==> old(self).is_mem(),
            !final(self).in_tx(),
            r is Ok ==> final(self).files_model() == old(self).files_model() && final(self).chunks_model() == old(self).chunks_model(),
            old(self).is_mem() ==> r is Ok,
    {
        match self {
            Store::Mem(m) => {
                m.saved = None;
                Ok(())
            },
            Store::Db(d) => {
                d.in_tx = false;
                sqlite_commit(&mut d.conn)
            },
        }
    }

    /// Abandon the open transaction: both tables hold again exactly what
    /// they held when it began — an interrupted batch leaves nothing.
    pub fn rollback(&mut self) -> (r: Result<(), ArchiveError>)
        requires
            old(self).wf(),
            old(self).in_tx(),
        ensures
            r matches Err(e) ==> e == ArchiveError::IOError,
            final(self).wf(),
            final(self).is_mem() <==> old(self).is_mem(),
            !final(self).in_tx(),
            r is Ok ==> final(self).files_model() == old(self).saved_files_model() && final(self).chunks_model() == old(self).saved_chunks_model(),
            old(self).is_mem() ==> r is Ok,
    {
        match self {
            Store::Mem(m) => {
                let snap = m.saved.take();
                match snap {
                    Some(s) => {
                        m.files = s.files;
                        m.chunks = s.chunks;
                        Ok(())
                    },
                    None => {
                        proof {
                            assert(false);
                        }
                        Ok(())
                    },
                }
            },
            Store::Db(d) => {
                d.in_tx = false;
                sqlite_rollback(&mut d.conn)
            },
        }
    }

    /// The row stored under `name`, if any.
    pub fn get_file_row(&self, name: &[u8]) -> (r: Result<Option<(i64, Vec<u8>)>, ArchiveError>)
        requires
            self.wf(),
        ensures
            r matches Err(e) ==> e == ArchiveError::IOError,
            r matches Ok(Some(row)) ==> self.files_model().dom().contains(name@)
                && self.files_model()[name@] == (row.0 as int, row.1@),
            r matches Ok(None) ==> !self.files_model().dom().contains(name@),
            self.is_mem() ==> r is Ok,
    {
        match self {
            Store::Mem(m) => {
                match mem_find_file(&m.files, name) {
                    Some(i) => {
                        proof {
                            lemma_pairs_map_get(file_pairs(m.files@), i as int);
                        }
                        let row = &m.files[i];
                        Ok(Some((row.size, copy_bytes(row.chunks.as_slice()))))
                    },
                    None => {
                        proof {
                            lemma_pairs_map_dom(file_pairs(m.files@));
                            if m.files_map().dom().contains(name@) {
                                let i = choose|i: int|
                                    0 <= i < file_pairs(m.files@).len() && #[trigger] file_pairs(
                                        m.files@,
                                    )[i].0 == name@;
                                assert(m.files@[i].name@ == name@);
                            }
                        }
                        Ok(None)
                    },
                }
            },
            Store::Db(d) => sqlite_get_file(&d.conn, name),
        }
    }

    /// Insert or replace the row under `name`.
    pub fn put_file_row(&mut self, name: &[u8], size: i64, chunks: &[u8]) -> (r: Result<
        (),
        ArchiveError,
    >)
        requires
            old(self).wf(),
            size >= 0,
        ensures
            r matches Err(e) ==> e == ArchiveError::IOError,
            final(self).wf(),
            final(self).is_mem() <==> old(self).is_mem(),
            final(self).in_tx() == old(self).in_tx(),
            final(self).chunks_model() == old(self).chunks_model(),
            old(self).in_tx() ==> final(self).saved_files_model() == old(self).saved_files_model()
                && final(self).saved_chunks_model() == old(self).saved_chunks_model(),
            r is Ok ==> final(self).files_model() == old(self).files_model().insert(
                name@,
                (size as int, chunks@),
            ),
            r is Err ==> final(self).files_model() == old(self).files_model(),
            old(self).is_mem() ==> r is Ok,
    {
        match self {
            Store::Mem(m) => {
                let nrow = FileRow { name: copy_bytes(name), size, chunks: copy_bytes(chunks) };
                let ghost fr0 = m.files@;
                match mem_find_file(&m.files, name) {
                    Some(i) => {
                        proof {
                            lemma_pairs_map_update(
                                file_pairs(fr0),
                                i as int,
                                (size as int, chunks@),
                            );
                        }
                        m.files[i] = nrow;
                        proof {
                            assert(file_pairs(m.files@) =~= file_pairs(fr0).update(
                                i as int,
                                (name@, (size as int, chunks@)),
                            ));
                            assert(file_pairs(fr0).update(i as int, (name@, (size as int, chunks@)))
                                =~= file_pairs(fr0).update(
                                i as int,
                                (file_pairs(fr0)[i as int].0, (size as int, chunks@)),
                            ));
                        }
                    },
                    None => {
                        proof {
                            assert(forall|j: int|
                                0 <= j < file_pairs(fr0).len() ==> #[trigger] file_pairs(fr0)[j].0
                                    != name@);
                            lemma_pairs_map_push_fresh(
                                file_pairs(fr0),
                                name@,
                                (size as int, chunks@),
                            );
                        }
                        m.files.push(nrow);
                        proof {
                            assert(file_pairs(m.files@) =~= file_pairs(fr0).push(
                                (name@, (size as int, chunks@)),
                            ));
                        }
                    },
                }
                Ok(())
            },
            Store::Db(d) => sqlite_put_file(&mut d.conn, name, size, chunks),
        }
    }

    /// Whether a chunk is stored under `hash`.
    pub fn has_chunk(&self, hash: &[u8]) -> (r: Result<bool, ArchiveError>)
        requires
            self.wf(),
        ensures
            r matches Err(e) ==> e == ArchiveError::IOError,
            r matches Ok(b) ==> b == self.chunks_model().dom().contains(hash@),
            self.is_mem() ==> r is Ok,
    {
        match self {
            Store::Mem(m) => {
                proof {
                    lemma_pairs_map_dom(chunk_pairs(m.chunks@));
                }
                match mem_find_chunk(&m.chunks, hash) {
                    Some(i) => {
                        proof {
                            assert(chunk_pairs(m.chunks@)[i as int].0 == hash@);
                        }
                        Ok(true)
                    },
                    None => {
                        proof {
                            if m.chunks_map().dom().contains(hash@) {
                                let i = choose|i: int|
                                    0 <= i < chunk_pairs(m.chunks@).len() && #[trigger] chunk_pairs(
                                        m.chunks@,
                                    )[i].0 == hash@;
                                assert(m.chunks@[i].hash@ == hash@);
                            }
                        }
                        Ok(false)
                    },
                }
            },
            Store::Db(d) => sqlite_has_chunk(&d.conn, hash),
        }
    }

    /// The compressed bytes stored under `hash`, if any.
    pub fn get_chunk_raw(&self, hash: &[u8]) -> (r: Result<Option<Vec<u8>>, ArchiveError>)
        requires
            self.wf(),
        ensures
            r matches Err(e) ==> e == ArchiveError::IOError,
            r matches Ok(Some(data)) ==> self.chunks_model().dom().contains(hash@)
                && self.chunks_model()[hash@] == data@,
            r matches Ok(None) ==> !self.chunks_model().dom().contains(hash@),
            self.is_mem() ==> r is Ok,
    {
        match self {
            Store::Mem(m) => {
                match mem_find_chunk(&m.chunks, hash) {
                    Some(i) => {
                        proof {
                            lemma_pairs_map_get(chunk_pairs(m.chunks@), i as int);
                        }
                        let row = &m.chunks[i];
                        Ok(Some(copy_bytes(row.data.as_slice())))
                    },
                    None => {
                        proof {
                            lemma_pairs_map_dom(chunk_pairs(m.chunks@));
                            if m.chunks_map().dom().contains(hash@) {
                                let i = choose|i: int|
                                    0 <= i < chunk_pairs(m.chunks@).len() && #[trigger] chunk_pairs(
                                        m.chunks@,
                                    )[i].0 == hash@;
                                assert(m.chunks@[i].hash@ == hash@);
                            }
                        }
                        Ok(None)
                    },
                }
            },
            Store::Db(d) => sqlite_get_chunk(&d.conn, hash),
        }
    }

    /// Store compressed bytes under a fresh `hash`; a present address is
    /// left untouched (writes are idempotent).
    pub fn put_chunk_raw(&mut self, hash: &[u8], data: &[u8]) -> (r: Result<(), ArchiveError>)
        requires
            old(self).wf(),
        ensures
            r matches Err(e) ==> e == ArchiveError::IOError,
            final(self).wf(),
            final(self).is_mem() <==> old(self).is_mem(),
            final(self).in_tx() == old(self).in_tx(),
            final(self).files_model() == old(self).files_model(),
            old(self).in_tx() ==> final(self).saved_files_model() == old(self).saved_files_model()
                && final(self).saved_chunks_model() == old(self).saved_chunks_model(),
            r is Ok ==> final(self).chunks_model() == if old(self).chunks_model().dom().contains(
                hash@,
            ) {
                old(self).chunks_model()
            } else {
                old(self).chunks_model().insert(hash@, data@)
            },
            r is Err ==> final(self).chunks_model() == old(self).chunks_model(),
            old(self).is_mem() ==> r is Ok,
    {
        match self {
            Store::Mem(m) => {
                let ghost cr0 = m.chunks@;
                proof {
                    lemma_pairs_map_dom(chunk_pairs(cr0));
                }
                match mem_find_chunk(&m.chunks, hash) {
                    Some(i) => {
                        proof {
                            assert(chunk_pairs(cr0)[i as int].0 == hash@);
                        }
                        Ok(())
                    },
                    None => {
                        proof {
                            if m.chunks_map().dom().contains(hash@) {
                                let i = choose|i: int|
                                    0 <= i < chunk_pairs(cr0).len() && #[trigger] chunk_pairs(
                                        cr0,
                                    )[i].0 == hash@;
                                assert(cr0[i].hash@ == hash@);
                            }
                            assert(forall|j: int|
                                0 <= j < chunk_pairs(cr0).len() ==> #[trigger] chunk_pairs(
                                    cr0,
                                )[j].0 != hash@);
                            lemma_pairs_map_push_fresh(chunk_pairs(cr0), hash@, data@);
                        }
                        let nrow = ChunkRow { hash: copy_bytes(hash), data: copy_bytes(data) };
                        m.chunks.push(nrow);
                        proof {
                            assert(chunk_pairs(m.chunks@) =~= chunk_pairs(cr0).push(
                                (hash@, data@),
                            ));
                        }
                        Ok(())
                    },
                }
            },
            Store::Db(d) => sqlite_put_chunk(&mut d.conn, hash, data),
        }
    }

    /// Every archived name, each exactly once, in no guaranteed order.
    pub fn list_names(&self) -> (r: Result<Vec<Vec<u8>>, ArchiveError>)
        requires
            self.wf(),
        ensures
            r matches Err(e) ==> e == ArchiveError::IOError,
            r matches Ok(v) ==> (forall|n: Seq<u8>|
                #[trigger] v.deep_view().contains(n) <==> self.files_model().dom().contains(n))
                && v.deep_view().no_duplicates(),
            self.is_mem() ==> r is Ok,
    {
        match self {
            Store::Mem(m) => {
                let mut out: Vec<Vec<u8>> = Vec::new();
                let mut i: usize = 0;
                while i < m.files.len()
                    invariant
                        0 <= i <= m.files@.len(),
                        out.deep_view().len() == i,
                        forall|j: int|
                            0 <= j < i ==> #[trigger] out.deep_view()[j] == m.files@[j].name@,
                    decreases m.files@.len() - i,
                {
                    let ghost dv0 = out.deep_view();
                    out.push(copy_bytes(m.files[i].name.as_slice()));
                    proof {
                        assert(out.deep_view() =~~= dv0.push(m.files@[i as int].name@));
                    }
                    i = i + 1;
                }
                proof {
                    lemma_pairs_map_dom(file_pairs(m.files@));
                    assert(out.deep_view() =~= keys_of(file_pairs(m.files@)));
                    assert forall|n: Seq<u8>| #[trigger] out.deep_view().contains(n) implies m
                        .files_map().dom().contains(n) by {
                        let j = choose|j: int|
                            0 <= j < out.deep_view().len() && out.deep_view()[j] == n;
                        assert(file_pairs(m.files@)[j].0 == n);
                    }
                    assert forall|n: Seq<u8>| m.files_map().dom().contains(n) implies #[trigger] out
                        .deep_view().contains(n) by {
                        let j = choose|j: int|
                            0 <= j < file_pairs(m.files@).len() && #[trigger] file_pairs(
                                m.files@,
                            )[j].0 == n;
                        assert(out.deep_view()[j] == n);
                    }
                }
                Ok(out)
            },
            Store::Db(d) => sqlite_list_names(&d.conn),
        }
    }

    /// How many distinct chunks the store holds.
    pub fn chunk_count(&self) -> (r: Result<u64, ArchiveError>)
        requires
            self.wf(),
        ensures
            r matches Err(e) ==> e == ArchiveError::IOError,
            r matches Ok(n) ==> self.chunks_model().dom().finite() && n
                == self.chunks_model().dom().len(),
            self.is_mem() ==> r is Ok,
    {
        match self {
            Store::Mem(m) => {
                proof {
                    lemma_pairs_map_len(chunk_pairs(m.chunks@));
                }
                Ok(m.chunks.len() as u64)
            },
            Store::Db(d) => {
                match sqlite_chunk_count(&d.conn) {
                    Ok(n) => {
                        assert(n >= 0);
                        Ok(n as u64)
                    },
                    Err(e) => Err(e),
                }
            },
        }
    }
}

/// The index of the row holding `name`, if any.
fn mem_find_file(rows: &Vec<FileRow>, name: &[u8]) -> (r: Option<usize>)
    ensures
        match r {
            Some(i) => i < rows@.len() && rows@[i as int].name@ == name@,
            None => forall|i: int| 0 <= i < rows@.len() ==> rows@[i].name@ != name@,
        },
{
    let mut i: usize = 0;
    while i < rows.len()
        invariant
            0 <= i <= rows@.len(),
            forall|j: int| 0 <= j < i ==> rows@[j].name@ != name@,
        decreases rows@.len() - i,
    {
        if bytes_eq(rows[i].name.as_slice(), name) {
            return Some(i);
        }
        i = i + 1;
    }
    None
}

/// The index of the row holding `hash`, if any.
fn mem_find_chunk(rows: &Vec<ChunkRow>, hash: &[u8]) -> (r: Option<usize>)
    ensures
        match r {
            Some(i) => i < rows@.len() && rows@[i as int].hash@ == hash@,
            None => forall|i: int| 0 <= i < rows@.len() ==> rows@[i].hash@ != hash@,
        },
{
    let mut i: usize = 0;
    while i < rows.len()
        invariant
            0 <= i <= rows@.len(),
            forall|j: int| 0 <= j < i ==> rows@[j].hash@ != hash@,
        decreases rows@.len() - i,
    {
        if bytes_eq(rows[i].hash.as_slice(), hash) {
            return Some(i);
        }
        i = i + 1;
    }
    None
}

/// A deep copy of the file rows, denoting the same association list.
fn copy_file_rows(v: &Vec<FileRow>) -> (r: Vec<FileRow>)
    ensures
        file_pairs(r@) == file_pairs(v@),
{
    let mut r: Vec<FileRow> = Vec::new();
    let mut i: usize = 0;
    while i < v.len()
        invariant
            0 <= i <= v@.len(),
            r@.len() == i,
            forall|j: int|
                0 <= j < i ==> #[trigger] r@[j].name@ == v@[j].name@ && r@[j].size == v@[j].size
                    && r@[j].chunks@ == v@[j].chunks@,
        decreases v@.len() - i,
    {
        let row = &v[i];
        r.push(
            FileRow {
                name: copy_bytes(row.name.as_slice()),
                size: row.size,
                chunks: copy_bytes(row.chunks.as_slice()),
            },
        );
        i = i + 1;
    }
    proof {
        assert(file_pairs(r@) =~= file_pairs(v@));
    }
    r
}

/// A deep copy of the chunk rows, denoting the same association list.
fn copy_chunk_rows(v: &Vec<ChunkRow>) -> (r: Vec<ChunkRow>)
    ensures
        chunk_pairs(r@) == chunk_pairs(v@),
{
    let mut r: Vec<ChunkRow> = Vec::new();
    let mut i: usize = 0;
    while i < v.len()
        invariant
            0 <= i <= v@.len(),
            r@.len() == i,
            forall|j: int|
                0 <= j < i ==> #[trigger] r@[j].hash@ == v@[j].hash@ && r@[j].data@ == v@[j].data@,
        decreases v@.len() - i,
    {
        let row = &v[i];
        r.push(
            ChunkRow {
                hash: copy_bytes(row.hash.as_slice()),
                data: copy_bytes(row.data.as_slice()),
            },
        );
        i = i + 1;
    }
    proof {
        assert(chunk_pairs(r@) =~= chunk_pairs(v@));
    }
    r
}

} // verus!
