use dedup_archive::chunker::{chunk_data, DEFAULT_CHUNK_BITS};
use dedup_archive::hasher::hash_chunk;

fn pseudo_random(mut seed: u64, len: usize) -> Vec<u8> {
    let mut v = Vec::with_capacity(len);
    for _ in 0..len {
        seed = seed.wrapping_mul(6364136223846793005).wrapping_add(1442695040888963407);
        v.push((seed >> 33) as u8);
    }
    v
}

fn concat(chunks: &[Vec<u8>]) -> Vec<u8> {
    let mut out = Vec::new();
    for c in chunks {
        out.extend_from_slice(c);
    }
    out
}

#[test]
fn chunk_coverage_empty() {
    let chunks = chunk_data(&[], 16);
    assert_eq!(chunks.len(), 0);
}

#[test]
fn chunk_coverage_single_byte() {
    let chunks = chunk_data(&[42], 16);
    assert_eq!(chunks.len(), 1);
    assert_eq!(chunks[0], vec![42u8]);
}

#[test]
fn chunk_coverage_large() {
    let data = pseudo_random(1, 3 * 1024 * 1024);
    let chunks = chunk_data(&data, 16);
    assert!(chunks.len() > 1);
    for c in &chunks {
        assert!(!c.is_empty());
    }
    assert_eq!(concat(&chunks), data);
}

#[test]
fn chunk_coverage_default_parameter() {
    let data = pseudo_random(2, 512 * 1024);
    let chunks = chunk_data(&data, DEFAULT_CHUNK_BITS);
    assert_eq!(concat(&chunks), data);
}

#[test]
fn chunking_and_hashing_deterministic() {
    let data = pseudo_random(3, 1024 * 1024);
    let first = chunk_data(&data, 16);
    let second = chunk_data(&data, 16);
    assert_eq!(first, second);
    let addrs_first: Vec<Vec<u8>> = first.iter().map(|c| hash_chunk(c)).collect();
    let addrs_second: Vec<Vec<u8>> = second.iter().map(|c| hash_chunk(c)).collect();
    assert_eq!(addrs_first, addrs_second);
}

#[test]
fn boundary_shift_resistance() {
    let original = pseudo_random(4, 2 * 1024 * 1024);
    let mut edited = Vec::with_capacity(original.len() + 5);
    edited.extend_from_slice(&original[..1000]);
    edited.extend_from_slice(b"EDIT!");
    edited.extend_from_slice(&original[1000..]);

    let a: Vec<Vec<u8>> = chunk_data(&original, 16).iter().map(|c| hash_chunk(c)).collect();
    let b: Vec<Vec<u8>> = chunk_data(&edited, 16).iter().map(|c| hash_chunk(c)).collect();
    assert!(a.len() > 8);

    let mut common_suffix: usize = 0;
    while common_suffix < a.len()
        && common_suffix < b.len()
        && a[a.len() - 1 - common_suffix] == b[b.len() - 1 - common_suffix]
    {
        common_suffix += 1;
    }
    let shorter = a.len().min(b.len());
    // Only a bounded, local prefix of the address sequence may change.
    assert!(common_suffix + 4 >= shorter, "suffix {} of {}", common_suffix, shorter);
    assert!(common_suffix > 0);
}

#[test]
fn hash_is_sha3_512_hex() {
    let digest = hash_chunk(b"");
    assert_eq!(digest.len(), 128);
    let expected: &[u8] = b"a69f73cca23a9ac5c8b567dc185a756e97c982164fe25859e0d1dcc1475c80a6\
15b2123af1f5f94c11e3e9402c3ac558f500199d95b6d3e301758586281dcd26";
    assert_eq!(digest, expected.to_vec());
}

#[test]
fn hash_is_lowercase_hex() {
    let digest = hash_chunk(b"some chunk of bytes");
    assert_eq!(digest.len(), 128);
    for b in &digest {
        assert!((b'0'..=b'9').contains(b) || (b'a'..=b'f').contains(b));
    }
    assert_ne!(hash_chunk(b"some chunk of bytes"), hash_chunk(b"another chunk"));
}
