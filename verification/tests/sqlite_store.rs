use dedup_archive::archive::Archive;
use dedup_archive::store::Store;
use dedup_archive::ArchiveError;

fn sqlite_archive() -> Archive {
    // An in-memory SQLite database: the real backend without a file.
    Archive::new(Store::open_sqlite(":memory:").unwrap(), 16)
}

fn patterned(mut seed: u64, len: usize) -> Vec<u8> {
    let mut v = Vec::with_capacity(len);
    for _ in 0..len {
        seed = seed.wrapping_mul(6364136223846793005).wrapping_add(1442695040888963407);
        v.push((seed >> 33) as u8);
    }
    v
}

#[test]
fn sqlite_roundtrip() {
    let mut a = sqlite_archive();
    let data = patterned(21, 600_000);
    a.put_file_data(b"dir/file.bin", &data).unwrap();
    assert_eq!(a.get_file_data(b"dir/file.bin").unwrap(), data);
    let rec = a.get_file_record(b"dir/file.bin").unwrap();
    assert_eq!(rec.size as usize, data.len());
}

#[test]
fn sqlite_dedup_counts() {
    let mut a = sqlite_archive();
    let data = patterned(23, 400_000);
    a.put_file_data(b"one", &data).unwrap();
    let c1 = a.store.chunk_count().unwrap();
    assert!(c1 > 0);
    a.put_file_data(b"two", &data).unwrap();
    assert_eq!(a.store.chunk_count().unwrap(), c1);
}

#[test]
fn sqlite_list_and_missing() {
    let mut a = sqlite_archive();
    a.put_file_data(b"a/b.txt", b"bee").unwrap();
    a.put_file_data(b"a/c.txt", b"sea").unwrap();
    let mut names = a.list_files(Some(b"a")).unwrap();
    names.sort();
    assert_eq!(names, vec![b"a/b.txt".to_vec(), b"a/c.txt".to_vec()]);
    assert_eq!(a.get_file_data(b"a/missing"), Err(ArchiveError::NotFound));
}

#[test]
fn sqlite_transaction_rollback_and_commit() {
    let mut a = sqlite_archive();
    a.put_file_data(b"base.txt", b"base").unwrap();

    a.store.begin().unwrap();
    a.put_file_data(b"doomed.txt", b"gone soon").unwrap();
    a.store.rollback().unwrap();
    assert_eq!(a.get_file_data(b"doomed.txt"), Err(ArchiveError::NotFound));
    assert_eq!(a.get_file_data(b"base.txt").unwrap(), b"base".to_vec());

    a.store.begin().unwrap();
    a.put_file_data(b"kept.txt", b"still here").unwrap();
    a.store.commit().unwrap();
    assert_eq!(a.get_file_data(b"kept.txt").unwrap(), b"still here".to_vec());
}

#[test]
fn backends_agree_on_records() {
    // Chunking and hashing are pure functions of the bytes, so both
    // backends record the same size and the same ordered addresses.
    let data = patterned(27, 250_000);
    let mut mem = Archive::new(Store::open_memory(), 16);
    let mut db = sqlite_archive();
    mem.put_file_data(b"same.bin", &data).unwrap();
    db.put_file_data(b"same.bin", &data).unwrap();
    let rec_mem = mem.get_file_record(b"same.bin").unwrap();
    let rec_db = db.get_file_record(b"same.bin").unwrap();
    assert_eq!(rec_mem.size, rec_db.size);
    assert_eq!(rec_mem.chunks, rec_db.chunks);
    assert_eq!(mem.store.chunk_count().unwrap(), db.store.chunk_count().unwrap());
}

#[test]
fn sqlite_open_failure_is_io_error() {
    match Store::open_sqlite("/nonexistent-dir-for-sure/archive.db") {
        Err(e) => assert_eq!(e, ArchiveError::IOError),
        Ok(_) => panic!("open must fail in a missing directory"),
    }
}
