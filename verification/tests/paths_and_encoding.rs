use dedup_archive::paths::{
    normalise_path, is_path_prefix, extract_destination, plan_extract_write, classify_entry,
    EntryKind,
};
use dedup_archive::encoding::{join_bytes, split_bytes, ADDRESS_SEP};
use dedup_archive::bytes::{bytes_eq, copy_bytes};
use dedup_archive::ArchiveError;

#[test]
fn normalise_under_cwd() {
    let r = normalise_path(b"/home/user", b"/home/user/docs/f.txt");
    assert_eq!(r, b"docs/f.txt".to_vec());
}

#[test]
fn normalise_against_ancestor() {
    let r = normalise_path(b"/home/user", b"/home/other/g.txt");
    assert_eq!(r, b"other/g.txt".to_vec());
}

#[test]
fn normalise_of_cwd_itself() {
    let r = normalise_path(b"/a/b", b"/a/b");
    assert_eq!(r, Vec::<u8>::new());
}

#[test]
fn normalise_relative_paths() {
    let r = normalise_path(b"a/b", b"a/b/c.txt");
    assert_eq!(r, b"c.txt".to_vec());
}

#[test]
fn path_prefix_is_component_wise() {
    assert!(is_path_prefix(b"a", b"a/b.txt"));
    assert!(is_path_prefix(b"a", b"a"));
    assert!(!is_path_prefix(b"a", b"ab.txt"));
    assert!(!is_path_prefix(b"a/b", b"a"));
    assert!(is_path_prefix(b"", b"anything/at/all"));
}

#[test]
fn extract_destination_preserves_subpath() {
    // Requesting `a` re-roots `a/b.txt` as `a/b.txt` (parent of `a` is empty).
    assert_eq!(extract_destination(b"a/b.txt", b"a"), Some(b"a/b.txt".to_vec()));
    // Requesting the exact file strips its directory.
    assert_eq!(extract_destination(b"a/b.txt", b"a/b.txt"), Some(b"b.txt".to_vec()));
    // A name outside the requested parent has no destination.
    assert_eq!(extract_destination(b"x/y.txt", b"a/b"), None);
}

#[test]
fn collision_is_refused_without_writing() {
    assert_eq!(plan_extract_write(true), Err(ArchiveError::Collision));
    assert_eq!(plan_extract_write(false), Ok(()));
}

#[test]
fn entry_classification() {
    assert_eq!(classify_entry(true, false), Ok(EntryKind::File));
    assert_eq!(classify_entry(false, true), Ok(EntryKind::Directory));
    assert_eq!(classify_entry(false, false), Err(ArchiveError::UnsupportedInput));
}

#[test]
fn join_split_round_trip() {
    let parts = vec![b"ab12".to_vec(), b"cd34".to_vec(), b"ef56".to_vec()];
    let joined = join_bytes(&parts, ADDRESS_SEP);
    assert_eq!(joined, b"ab12;cd34;ef56".to_vec());
    assert_eq!(split_bytes(&joined, ADDRESS_SEP), parts);
}

#[test]
fn split_of_empty_is_no_parts() {
    assert_eq!(split_bytes(b"", ADDRESS_SEP), Vec::<Vec<u8>>::new());
    let empty: Vec<Vec<u8>> = Vec::new();
    assert_eq!(join_bytes(&empty, ADDRESS_SEP), Vec::<u8>::new());
}

#[test]
fn byte_helpers() {
    assert!(bytes_eq(b"same", b"same"));
    assert!(!bytes_eq(b"same", b"sane"));
    assert!(!bytes_eq(b"short", b"shorter"));
    assert_eq!(copy_bytes(b"abc"), b"abc".to_vec());
}
