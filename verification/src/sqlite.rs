use vstd::prelude::*;
use crate::errors::ArchiveError;
use rusqlite::OptionalExtension;

verus! {

/// The durable persistence backend: a SQLite database holding the two
/// persisted structures, a `files` table keyed by unique name and a
/// `chunks` table keyed by unique address.
#[verifier::external_type_specification]
#[verifier::external_body]
pub struct ExConnection(rusqlite::Connection);

/// What the `files` table of the database behind `c` holds: each archived
/// name mapped to its recorded size and its serialized ordered
/// chunk-address list.  The library is the single writer of the database,
/// so the contents are determined by the connection.
pub uninterp spec fn sq_files(c: rusqlite::Connection) -> Map<Seq<u8>, (int, Seq<u8>)>;

/// What the `chunks` table of the database behind `c` holds: each chunk
/// address mapped to the compressed chunk bytes.
pub uninterp spec fn sq_chunks(c: rusqlite::Connection) -> Map<Seq<u8>, Seq<u8>>;

/// What the `files` table held when the open transaction began.
pub uninterp spec fn sq_saved_files(c: rusqlite::Connection) -> Map<Seq<u8>, (int, Seq<u8>)>;

/// What the `chunks` table held when the open transaction began.
pub uninterp spec fn sq_saved_chunks(c: rusqlite::Connection) -> Map<Seq<u8>, Seq<u8>>;

/// Relies on rusqlite::Connection::open: opens (creating it if absent)
/// the database file at `path`.
#[verifier::external_body]
pub(crate) fn sqlite_open(path: &str) -> (r: Result<rusqlite::Connection, ArchiveError>)
    ensures
        r matches Err(e) ==> e == ArchiveError::IOError,
{
    match rusqlite::Connection::open(path) {
        Ok(c) => Ok(c),
        Err(_) => Err(ArchiveError::IOError),
    }
}

/// Relies on rusqlite::Connection::execute_batch running `CREATE TABLE IF
/// NOT EXISTS` statements and a journal-mode pragma: idempotent schema
/// creation that leaves the contents of both tables unchanged.
#[verifier::external_body]
pub(crate) fn sqlite_init(c: &mut rusqlite::Connection) -> (r: Result<(), ArchiveError>)
    ensures
        r matches Err(e) ==> e == ArchiveError::IOError,
        r is Ok ==> sq_files(*final(c)) == sq_files(*old(c)) && sq_chunks(*final(c)) == sq_chunks(
            *old(c),
        ),
{
    let sql = "CREATE TABLE IF NOT EXISTS files (name BLOB PRIMARY KEY, size INT, chunks BLOB);
        CREATE TABLE IF NOT EXISTS chunks (hash BLOB PRIMARY KEY, data BLOB);
        PRAGMA journal_mode=WAL;";
    match c.execute_batch(sql) {
        Ok(()) => Ok(()),
        Err(_) => Err(ArchiveError::IOError),
    }
}

/// Relies on rusqlite::Connection::execute_batch running `BEGIN`: a
/// transaction starts, the contents are unchanged, and a later `ROLLBACK`
/// will restore exactly the contents at this point.
#[verifier::external_body]
pub(crate) fn sqlite_begin(c: &mut rusqlite::Connection) -> (r: Result<(), ArchiveError>)
    ensures
        r matches Err(e) ==> e == ArchiveError::IOError,
        sq_files(*final(c)) == sq_files(*old(c)),
        sq_chunks(*final(c)) == sq_chunks(*old(c)),
        r is Ok ==> sq_saved_files(*final(c)) == sq_files(*old(c)) && sq_saved_chunks(*final(c))
            == sq_chunks(*old(c)),
{
    match c.execute_batch("BEGIN") {
        Ok(()) => Ok(()),
        Err(_) => Err(ArchiveError::IOError),
    }
}

/// Relies on rusqlite::Connection::execute_batch running `COMMIT`: the
/// current contents become durable, unchanged.
#[verifier::external_body]
pub(crate) fn sqlite_commit(c: &mut rusqlite::Connection) -> (r: Result<(), ArchiveError>)
    ensures
        r matches Err(e) ==> e == ArchiveError::IOError,
        r is Ok ==> sq_files(*final(c)) == sq_files(*old(c)) && sq_chunks(*final(c)) == sq_chunks(
            *old(c),
        ),
{
    match c.execute_batch("COMMIT") {
        Ok(()) => Ok(()),
        Err(_) => Err(ArchiveError::IOError),
    }
}

/// Relies on rusqlite::Connection::execute_batch running `ROLLBACK`: the
/// transaction is abandoned and both tables hold again exactly what they
/// held when it began.
#[verifier::external_body]
pub(crate) fn sqlite_rollback(c: &mut rusqlite::Connection) -> (r: Result<(), ArchiveError>)
    ensures
        r matches Err(e) ==> e == ArchiveError::IOError,
        r is Ok ==> sq_files(*final(c)) == sq_saved_files(*old(c)) && sq_chunks(*final(c))
            == sq_saved_chunks(*old(c)),
{
    match c.execute_batch("ROLLBACK") {
        Ok(()) => Ok(()),
        Err(_) => Err(ArchiveError::IOError),
    }
}

/// Relies on rusqlite::Connection::query_row selecting size and chunks by
/// primary-key name, with OptionalExtension::optional turning the no-row
/// case into `None`: returns the row stored under `name`, if any.
#[verifier::external_body]
pub(crate) fn sqlite_get_file(c: &rusqlite::Connection, name: &[u8]) -> (r: Result<
    Option<(i64, Vec<u8>)>,
    ArchiveError,
>)
    ensures
        r matches Err(e) ==> e == ArchiveError::IOError,
        r matches Ok(Some(row)) ==> sq_files(*c).dom().contains(name@) && sq_files(*c)[name@] == (
            row.0 as int,
            row.1@,
        ),
        r matches Ok(None) ==> !sq_files(*c).dom().contains(name@),
{
    let q = c.query_row(
        "SELECT size, chunks FROM files WHERE name=?",
        (name,),
        |row| Ok((row.get::<usize, i64>(0)?, row.get::<usize, Vec<u8>>(1)?)),
    );
    q.optional().map_err(|_| ArchiveError::IOError)
}

/// Relies on rusqlite::Connection::execute running `INSERT OR REPLACE`
/// into the `files` table: the row under `name` is inserted or replaced,
/// nothing else changes; a failed statement changes nothing.
#[verifier::external_body]
pub(crate) fn sqlite_put_file(
    c: &mut rusqlite::Connection,
    name: &[u8],
    size: i64,
    chunks: &[u8],
) -> (r: Result<(), ArchiveError>)
    ensures
        r matches Err(e) ==> e == ArchiveError::IOError,
        r is Ok ==> sq_files(*final(c)) == sq_files(*old(c)).insert(name@, (size as int, chunks@)),
        r is Err ==> sq_files(*final(c)) == sq_files(*old(c)),
        sq_chunks(*final(c)) == sq_chunks(*old(c)),
        sq_saved_files(*final(c)) == sq_saved_files(*old(c)),
        sq_saved_chunks(*final(c)) == sq_saved_chunks(*old(c)),
{
    match c.execute("INSERT OR REPLACE INTO files VALUES (?,?,?)", (name, size, chunks)) {
        Ok(_) => Ok(()),
        Err(_) => Err(ArchiveError::IOError),
    }
}

/// Relies on rusqlite::Connection::query_row selecting by primary-key
/// hash, with OptionalExtension::optional: returns the compressed bytes
/// stored under `hash`, if any.
#[verifier::external_body]
pub(crate) fn sqlite_get_chunk(c: &rusqlite::Connection, hash: &[u8]) -> (r: Result<
    Option<Vec<u8>>,
    ArchiveError,
>)
    ensures
        r matches Err(e) ==> e == ArchiveError::IOError,
        r matches Ok(Some(data)) ==> sq_chunks(*c).dom().contains(hash@) && sq_chunks(*c)[hash@]
            == data@,
        r matches Ok(None) ==> !sq_chunks(*c).dom().contains(hash@),
{
    let q = c.query_row(
        "SELECT data FROM chunks WHERE hash=?",
        (hash,),
        |row| row.get::<usize, Vec<u8>>(0),
    );
    q.optional().map_err(|_| ArchiveError::IOError)
}

/// Relies on rusqlite::Connection::query_row selecting `1` by primary-key
/// hash, with OptionalExtension::optional: reports whether a chunk row
/// with this address exists.
#[verifier::external_body]
pub(crate) fn sqlite_has_chunk(c: &rusqlite::Connection, hash: &[u8]) -> (r: Result<
    bool,
    ArchiveError,
>)
    ensures
        r matches Err(e) ==> e == ArchiveError::IOError,
        r matches Ok(b) ==> b == sq_chunks(*c).dom().contains(hash@),
{
    let q = c.query_row("SELECT 1 FROM chunks WHERE hash=?", (hash,), |row| row.get::<usize, i64>(0));
    match q.optional() {
        Ok(row) => Ok(row.is_some()),
        Err(_) => Err(ArchiveError::IOError),
    }
}

/// Relies on rusqlite::Connection::execute running `INSERT OR IGNORE`
/// into the `chunks` table: a row under a fresh address is inserted, a
/// present address is left untouched, nothing else changes; a failed
/// statement changes nothing.
#[verifier::external_body]
pub(crate) fn sqlite_put_chunk(c: &mut rusqlite::Connection, hash: &[u8], data: &[u8]) -> (r:
    Result<(), ArchiveError>)
    ensures
        r matches Err(e) ==> e == ArchiveError::IOError,
        r is Ok ==> sq_chunks(*final(c)) == if sq_chunks(*old(c)).dom().contains(hash@) {
            sq_chunks(*old(c))
        } else {
            sq_chunks(*old(c)).insert(hash@, data@)
        },
        r is Err ==> sq_chunks(*final(c)) == sq_chunks(*old(c)),
        sq_files(*final(c)) == sq_files(*old(c)),
        sq_saved_files(*final(c)) == sq_saved_files(*old(c)),
        sq_saved_chunks(*final(c)) == sq_saved_chunks(*old(c)),
{
    match c.execute("INSERT OR IGNORE INTO chunks VALUES (?,?)", (hash, data)) {
        Ok(_) => Ok(()),
        Err(_) => Err(ArchiveError::IOError),
    }
}

/// Relies on rusqlite::Statement::query_map over `SELECT name FROM
/// files`: yields every archived name exactly once (names are the
/// table's primary key), in no guaranteed order.
#[verifier::external_body]
pub(crate) fn sqlite_list_names(c: &rusqlite::Connection) -> (r: Result<Vec<Vec<u8>>, ArchiveError>)
    ensures
        r matches Err(e) ==> e == ArchiveError::IOError,
        r matches Ok(v) ==> (forall|n: Seq<u8>|
            #[trigger] v.deep_view().contains(n) <==> sq_files(*c).dom().contains(n))
            && v.deep_view().no_duplicates(),
{
    let mut stmt = c.prepare("SELECT name FROM files").map_err(|_| ArchiveError::IOError)?;
    let rows = stmt.query_map((), |row| row.get::<usize, Vec<u8>>(0)).map_err(
        |_| ArchiveError::IOError,
    )?;
    let mut out: Vec<Vec<u8>> = Vec::new();
    for row in rows {
        out.push(row.map_err(|_| ArchiveError::IOError)?);
    }
    Ok(out)
}

/// Relies on rusqlite::Connection::query_row over `SELECT COUNT(*) FROM
/// chunks`: the number of chunk rows, one per distinct stored address.
#[verifier::external_body]
pub(crate) fn sqlite_chunk_count(c: &rusqlite::Connection) -> (r: Result<i64, ArchiveError>)
    ensures
        r matches Err(e) ==> e == ArchiveError::IOError,
        r matches Ok(n) ==> sq_chunks(*c).dom().finite() && n == sq_chunks(*c).dom().len(),
{
    let q = c.query_row("SELECT COUNT(*) FROM chunks", (), |row| row.get::<usize, i64>(0));
    match q {
        Ok(n) => Ok(n),
        Err(_) => Err(ArchiveError::IOError),
    }
}

} // verus!
