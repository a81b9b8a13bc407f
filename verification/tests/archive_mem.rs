use dedup_archive::archive::Archive;
use dedup_archive::store::Store;
use dedup_archive::ArchiveError;
use dedup_archive::chunker::chunk_data;
use dedup_archive::hasher::hash_chunk;

const BITS: usize = 16;

fn mem_archive(bits: usize) -> Archive {
    Archive::new(Store::open_memory(), bits)
}

fn lcg_data(mut seed: u64, len: usize) -> Vec<u8> {
    let mut v = Vec::with_capacity(len);
    for _ in 0..len {
        seed = seed.wrapping_mul(6364136223846793005).wrapping_add(1442695040888963407);
        v.push((seed >> 33) as u8);
    }
    v
}

#[test]
fn roundtrip_small() {
    let mut a = mem_archive(BITS);
    let data = b"hello, archive world".to_vec();
    a.put_file_data(b"greeting.txt", &data).unwrap();
    let back = a.get_file_data(b"greeting.txt").unwrap();
    assert_eq!(back, data);
}

#[test]
fn roundtrip_empty_file() {
    let mut a = mem_archive(BITS);
    a.put_file_data(b"empty.txt", &[]).unwrap();
    let back = a.get_file_data(b"empty.txt").unwrap();
    assert_eq!(back, Vec::<u8>::new());
    let rec = a.get_file_record(b"empty.txt").unwrap();
    assert_eq!(rec.size, 0);
    assert_eq!(rec.chunks.len(), 0);
}

#[test]
fn roundtrip_large() {
    let mut a = mem_archive(BITS);
    let data = lcg_data(7, 2 * 1024 * 1024);
    a.put_file_data(b"big.bin", &data).unwrap();
    let back = a.get_file_data(b"big.bin").unwrap();
    assert_eq!(back, data);
    let rec = a.get_file_record(b"big.bin").unwrap();
    assert_eq!(rec.size as usize, data.len());
    assert!(rec.chunks.len() > 1);
}

#[test]
fn dedup_identical_content() {
    let mut a = mem_archive(20);
    let data = lcg_data(11, 10 * 1024 * 1024);
    a.put_file_data(b"first.bin", &data).unwrap();
    let count_after_first = a.store.chunk_count().unwrap();
    assert!(count_after_first > 0);
    a.put_file_data(b"second.bin", &data).unwrap();
    let count_after_second = a.store.chunk_count().unwrap();
    assert_eq!(count_after_first, count_after_second);
    assert_eq!(a.get_file_data(b"second.bin").unwrap(), data);
}

#[test]
fn reput_same_name_is_idempotent_on_chunks() {
    let mut a = mem_archive(BITS);
    let data = lcg_data(13, 300_000);
    a.put_file_data(b"f", &data).unwrap();
    let c1 = a.store.chunk_count().unwrap();
    a.put_file_data(b"f", &data).unwrap();
    assert_eq!(a.store.chunk_count().unwrap(), c1);
}

#[test]
fn overwrite_last_wins() {
    let mut a = mem_archive(BITS);
    a.put_file_data(b"f.txt", b"old contents").unwrap();
    a.put_file_data(b"f.txt", b"new contents").unwrap();
    assert_eq!(a.get_file_data(b"f.txt").unwrap(), b"new contents".to_vec());
    let names = a.list_files(None).unwrap();
    assert_eq!(names.len(), 1);
}

#[test]
fn get_missing_is_not_found() {
    let a = mem_archive(BITS);
    assert_eq!(a.get_file_data(b"nowhere"), Err(ArchiveError::NotFound));
    assert!(a.get_file_record(b"nowhere").is_err());
}

#[test]
fn missing_chunk_is_corruption() {
    let mut a = mem_archive(BITS);
    // A record referencing an address the chunk store lacks.
    a.store.put_file_row(b"bad", 4, b"deadbeef").unwrap();
    assert_eq!(a.get_file_data(b"bad"), Err(ArchiveError::Corruption));
}

#[test]
fn undecodable_chunk_is_corruption() {
    let mut a = mem_archive(BITS);
    a.store.put_chunk_raw(b"aa", b"this is not a zstd frame").unwrap();
    a.store.put_file_row(b"bad2", 4, b"aa").unwrap();
    assert_eq!(a.get_file_data(b"bad2"), Err(ArchiveError::Corruption));
}

#[test]
fn list_with_prefix() {
    let mut a = mem_archive(BITS);
    a.put_file_data(b"a/b.txt", b"bee").unwrap();
    a.put_file_data(b"a/c.txt", b"sea").unwrap();
    a.put_file_data(b"d.txt", b"dee").unwrap();

    let mut all = a.list_files(None).unwrap();
    all.sort();
    assert_eq!(all, vec![b"a/b.txt".to_vec(), b"a/c.txt".to_vec(), b"d.txt".to_vec()]);

    let mut under_a = a.list_files(Some(b"a")).unwrap();
    under_a.sort();
    assert_eq!(under_a, vec![b"a/b.txt".to_vec(), b"a/c.txt".to_vec()]);

    let exact = a.list_files(Some(b"a/b.txt")).unwrap();
    assert_eq!(exact, vec![b"a/b.txt".to_vec()]);

    // A path prefix, not a string prefix: `a` must not match `ab.txt`.
    a.put_file_data(b"ab.txt", b"x").unwrap();
    let mut under_a2 = a.list_files(Some(b"a")).unwrap();
    under_a2.sort();
    assert_eq!(under_a2, vec![b"a/b.txt".to_vec(), b"a/c.txt".to_vec()]);
}

#[test]
fn rollback_restores_store() {
    let mut a = mem_archive(BITS);
    a.put_file_data(b"keep.txt", b"kept").unwrap();
    let baseline_count = a.store.chunk_count().unwrap();

    a.store.begin().unwrap();
    a.put_file_data(b"batch1.txt", &lcg_data(17, 100_000)).unwrap();
    a.put_file_data(b"batch2.txt", &lcg_data(19, 100_000)).unwrap();
    // An error strikes the batch here: roll everything back.
    a.store.rollback().unwrap();

    assert_eq!(a.get_file_data(b"batch1.txt"), Err(ArchiveError::NotFound));
    assert_eq!(a.get_file_data(b"batch2.txt"), Err(ArchiveError::NotFound));
    assert_eq!(a.get_file_data(b"keep.txt").unwrap(), b"kept".to_vec());
    assert_eq!(a.store.chunk_count().unwrap(), baseline_count);
    let names = a.list_files(None).unwrap();
    assert_eq!(names, vec![b"keep.txt".to_vec()]);
}

#[test]
fn record_addresses_are_chunk_hashes() {
    let mut a = mem_archive(BITS);
    let data = lcg_data(29, 500_000);
    a.put_file_data(b"r.bin", &data).unwrap();
    let rec = a.get_file_record(b"r.bin").unwrap();
    let expected: Vec<Vec<u8>> = chunk_data(&data, BITS).iter().map(|c| hash_chunk(c)).collect();
    assert_eq!(rec.chunks, expected);
    for addr in &rec.chunks {
        assert!(a.store.has_chunk(addr).unwrap());
    }
}

#[test]
fn commit_keeps_batch() {
    let mut a = mem_archive(BITS);
    a.store.begin().unwrap();
    a.put_file_data(b"x.txt", b"ex").unwrap();
    a.put_file_data(b"y.txt", b"why").unwrap();
    a.store.commit().unwrap();
    assert_eq!(a.get_file_data(b"x.txt").unwrap(), b"ex".to_vec());
    assert_eq!(a.get_file_data(b"y.txt").unwrap(), b"why".to_vec());
}
