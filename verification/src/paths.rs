use vstd::prelude::*;
use crate::errors::ArchiveError;
use crate::bytes::{bytes_eq, copy_bytes};
use crate::encoding::{PATH_SEP, join_seqs, split_seq, join_bytes, split_bytes};

verus! {

/// The components of a path: the byte string split at every `/`.
pub open spec fn path_components(p: Seq<u8>) -> Seq<Seq<u8>> {
    split_seq(p, PATH_SEP)
}

/// Whether the components of `pre` are a prefix of the components of
/// `p`: `a` matches `a` and `a/b.txt`, never `ab.txt`.
pub open spec fn is_path_prefix_spec(pre: Seq<u8>, p: Seq<u8>) -> bool {
    path_components(pre).is_prefix_of(path_components(p))
}

/// The components of the parent of `p`: all but the last component.
pub open spec fn parent_components(p: Seq<u8>) -> Seq<Seq<u8>> {
    if path_components(p).len() == 0 {
        Seq::empty()
    } else {
        path_components(p).drop_last()
    }
}

/// The length of the longest common component-prefix of two paths.
pub open spec fn lcp_len(a: Seq<Seq<u8>>, b: Seq<Seq<u8>>) -> int
    decreases a.len(),
{
    if a.len() == 0 || b.len() == 0 || a[0] != b[0] {
        0
    } else {
        1 + lcp_len(a.drop_first(), b.drop_first())
    }
}

/// A position that agrees everywhere before it and disagrees (or runs
/// out) at it is the longest common prefix length.
proof fn lemma_lcp_char(a: Seq<Seq<u8>>, b: Seq<Seq<u8>>, k: int)
    requires
        0 <= k <= a.len(),
        k <= b.len(),
        forall|j: int| 0 <= j < k ==> a[j] == b[j],
        k == a.len() || k == b.len() || a[k] != b[k],
    ensures
        lcp_len(a, b) == k,
    decreases k,
{
    if k == 0 {
    } else {
        assert(a[0] == b[0]);
        let a1 = a.drop_first();
        let b1 = b.drop_first();
        assert(forall|j: int| 0 <= j < k - 1 ==> a1[j] == a[j + 1] && b1[j] == b[j + 1]);
        if k < a.len() && k < b.len() {
            assert(a1[k - 1] == a[k] && b1[k - 1] == b[k]);
        }
        lemma_lcp_char(a1, b1, k - 1);
    }
}

/// Whether `pre` is a component-wise path prefix of `p`.
pub fn is_path_prefix(pre: &[u8], p: &[u8]) -> (r: bool)
    ensures
        r == is_path_prefix_spec(pre@, p@),
{
    let a = split_bytes(pre, PATH_SEP);
    let b = split_bytes(p, PATH_SEP);
    if a.len() > b.len() {
        assert(!path_components(pre@).is_prefix_of(path_components(p@)));
        return false;
    }
    let mut i: usize = 0;
    while i < a.len()
        invariant
            0 <= i <= a@.len(),
            a@.len() <= b@.len(),
            a.deep_view() == path_components(pre@),
            b.deep_view() == path_components(p@),
            forall|j: int| 0 <= j < i ==> a.deep_view()[j] == b.deep_view()[j],
        decreases a@.len() - i,
    {
        let same = bytes_eq(a[i].as_slice(), b[i].as_slice());
        proof {
            assert(a.deep_view()[i as int] == a@[i as int]@);
            assert(b.deep_view()[i as int] == b@[i as int]@);
        }
        if !same {
            assert(a.deep_view()[i as int] != b.deep_view()[i as int]);
            assert(!path_components(pre@).is_prefix_of(path_components(p@)));
            return false;
        }
        i = i + 1;
    }
    proof {
        assert(path_components(pre@) =~= path_components(p@).subrange(
            0,
            path_components(pre@).len() as int,
        ));
    }
    true
}

/// The longest common component-prefix length of two component lists.
fn common_prefix_len(a: &Vec<Vec<u8>>, b: &Vec<Vec<u8>>) -> (k: usize)
    ensures
        k <= a@.len(),
        k <= b@.len(),
        k == lcp_len(a.deep_view(), b.deep_view()),
{
    let mut k: usize = 0;
    loop
        invariant
            0 <= k <= a@.len(),
            k <= b@.len(),
            a.deep_view().len() == a@.len(),
            b.deep_view().len() == b@.len(),
            forall|j: int| 0 <= j < k ==> a.deep_view()[j] == b.deep_view()[j],
        decreases a@.len() - k,
    {
        if k >= a.len() || k >= b.len() {
            proof {
                lemma_lcp_char(a.deep_view(), b.deep_view(), k as int);
            }
            return k;
        }
        let same = bytes_eq(a[k].as_slice(), b[k].as_slice());
        proof {
            assert(a.deep_view()[k as int] == a@[k as int]@);
            assert(b.deep_view()[k as int] == b@[k as int]@);
        }
        if !same {
            proof {
                lemma_lcp_char(a.deep_view(), b.deep_view(), k as int);
            }
            return k;
        }
        k = k + 1;
    }
}

/// The archive name of `p` relative to the working directory `cwd`: the
/// deepest ancestor of `cwd` that is a path-prefix of `p` is stripped,
/// which leaves the components of `p` after the longest common
/// component-prefix of the two paths, rejoined with `/`.
pub fn normalise_path(cwd: &[u8], p: &[u8]) -> (r: Vec<u8>)
    ensures
        r@ == join_seqs(
            path_components(p@).skip(lcp_len(path_components(cwd@), path_components(p@))),
            PATH_SEP,
        ),
{
    let a = split_bytes(cwd, PATH_SEP);
    let b = split_bytes(p, PATH_SEP);
    let k = common_prefix_len(&a, &b);
    let mut suffix: Vec<Vec<u8>> = Vec::new();
    let mut j: usize = k;
    while j < b.len()
        invariant
            k <= j <= b@.len(),
            b.deep_view() == path_components(p@),
            suffix.deep_view() == path_components(p@).skip(k as int).take(j - k),
        decreases b@.len() - j,
    {
        let ghost dv0 = suffix.deep_view();
        suffix.push(copy_bytes(b[j].as_slice()));
        proof {
            assert(suffix.deep_view() =~~= dv0.push(b.deep_view()[j as int]));
            assert(suffix.deep_view() =~= path_components(p@).skip(k as int).take(j - k + 1));
        }
        j = j + 1;
    }
    proof {
        assert(suffix.deep_view() =~= path_components(p@).skip(k as int));
    }
    join_bytes(&suffix, PATH_SEP)
}

/// The extraction destination for an archived `name` requested under
/// `requested`: the parent components of the requested path are stripped
/// from the archived name, so the requested subtree's own subpath is
/// preserved under the caller's location.  `None` when the parent is not
/// a component prefix of the name (such a name was not selected by the
/// request).
pub fn extract_destination(name: &[u8], requested: &[u8]) -> (r: Option<Vec<u8>>)
    ensures
        match r {
            Some(d) => parent_components(requested@).is_prefix_of(path_components(name@)) && d@
                == join_seqs(
                path_components(name@).skip(parent_components(requested@).len() as int),
                PATH_SEP,
            ),
            None => !parent_components(requested@).is_prefix_of(path_components(name@)),
        },
{
    let req = split_bytes(requested, PATH_SEP);
    let nm = split_bytes(name, PATH_SEP);
    let plen: usize = if req.len() == 0 {
        0
    } else {
        req.len() - 1
    };
    proof {
        assert(parent_components(requested@) =~= req.deep_view().take(plen as int));
    }
    if plen > nm.len() {
        assert(!parent_components(requested@).is_prefix_of(path_components(name@)));
        return None;
    }
    let mut i: usize = 0;
    while i < plen
        invariant
            0 <= i <= plen <= nm@.len(),
            plen < req@.len() || plen == 0,
            req.deep_view() == path_components(requested@),
            nm.deep_view() == path_components(name@),
            parent_components(requested@) == req.deep_view().take(plen as int),
            forall|j: int| 0 <= j < i ==> req.deep_view()[j] == nm.deep_view()[j],
        decreases plen - i,
    {
        let same = bytes_eq(req[i].as_slice(), nm[i].as_slice());
        proof {
            assert(req.deep_view()[i as int] == req@[i as int]@);
            assert(nm.deep_view()[i as int] == nm@[i as int]@);
        }
        if !same {
            assert(req.deep_view().take(plen as int)[i as int] != nm.deep_view()[i as int]);
            assert(!parent_components(requested@).is_prefix_of(path_components(name@)));
            return None;
        }
        i = i + 1;
    }
    proof {
        assert(parent_components(requested@) =~= path_components(name@).subrange(0, plen as int));
    }
    let mut suffix: Vec<Vec<u8>> = Vec::new();
    let mut j: usize = plen;
    while j < nm.len()
        invariant
            plen <= j <= nm@.len(),
            nm.deep_view() == path_components(name@),
            suffix.deep_view() == path_components(name@).skip(plen as int).take(j - plen),
        decreases nm@.len() - j,
    {
        let ghost dv0 = suffix.deep_view();
        suffix.push(copy_bytes(nm[j].as_slice()));
        proof {
            assert(suffix.deep_view() =~~= dv0.push(nm.deep_view()[j as int]));
            assert(suffix.deep_view() =~= path_components(name@).skip(plen as int).take(
                j - plen + 1,
            ));
        }
        j = j + 1;
    }
    proof {
        assert(suffix.deep_view() =~= path_components(name@).skip(plen as int));
    }
    Some(join_bytes(&suffix, PATH_SEP))
}

/// What an enumerated directory entry is to the archiver.
#[derive(Clone, Copy, Debug, PartialEq, Eq, Structural)]
pub enum EntryKind {
    File,
    Directory,
}

/// How path enumeration treats one entry: a regular file is archived, a
/// directory is descended into, and anything else (a symlink, a device)
/// is rejected as `UnsupportedInput`.
pub fn classify_entry(is_file: bool, is_dir: bool) -> (r: Result<EntryKind, ArchiveError>)
    ensures
        is_file ==> r == Ok::<EntryKind, ArchiveError>(EntryKind::File),
        !is_file && is_dir ==> r == Ok::<EntryKind, ArchiveError>(EntryKind::Directory),
        !is_file && !is_dir ==> r == Err::<EntryKind, ArchiveError>(ArchiveError::UnsupportedInput),
{
    if is_file {
        Ok(EntryKind::File)
    } else if is_dir {
        Ok(EntryKind::Directory)
    } else {
        Err(ArchiveError::UnsupportedInput)
    }
}

/// Extraction is create-only: a destination that already exists fails
/// with `Collision` and must not be written to at all.
pub fn plan_extract_write(dest_exists: bool) -> (r: Result<(), ArchiveError>)
    ensures
        r == if dest_exists {
            Err::<(), ArchiveError>(ArchiveError::Collision)
        } else {
            Ok::<(), ArchiveError>(())
        },
{
    if dest_exists {
        Err(ArchiveError::Collision)
    } else {
        Ok(())
    }
}

} // verus!
