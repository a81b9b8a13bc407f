use vstd::prelude::*;

verus! {

/// Delimiter between chunk addresses in a persisted file record.
pub const ADDRESS_SEP: u8 = 59;

/// Separator between path components of an archive name.
pub const PATH_SEP: u8 = 47;

/// Lowercase hexadecimal digits: the only bytes a chunk address holds.
/// The address delimiter and the path separator are not among them.
pub open spec fn is_hex_byte(b: u8) -> bool {
    (48 <= b && b <= 57) || (97 <= b && b <= 102)
}

/// A chunk address: nonempty, lowercase hexadecimal bytes.
pub open spec fn valid_address(a: Seq<u8>) -> bool {
    a.len() > 0 && forall|i: int| 0 <= i < a.len() ==> is_hex_byte(#[trigger] a[i])
}

/// `s` holds no occurrence of `sep`.
pub open spec fn sep_free(s: Seq<u8>, sep: u8) -> bool {
    forall|i: int| 0 <= i < s.len() ==> #[trigger] s[i] != sep
}

/// Every element of `parts` is free of `sep`.
pub open spec fn all_sep_free(parts: Seq<Seq<u8>>, sep: u8) -> bool {
    forall|i: int| 0 <= i < parts.len() ==> sep_free(#[trigger] parts[i], sep)
}

/// The parts concatenated in order with `sep` between consecutive parts.
pub open spec fn join_seqs(parts: Seq<Seq<u8>>, sep: u8) -> Seq<u8>
    decreases parts.len(),
{
    if parts.len() == 0 {
        Seq::empty()
    } else if parts.len() == 1 {
        parts[0]
    } else {
        parts[0] + seq![sep] + join_seqs(parts.drop_first(), sep)
    }
}

/// One pass of splitting: `cur` is the part being built, `acc` the parts
/// already emitted.
pub open spec fn split_loop(data: Seq<u8>, sep: u8, cur: Seq<u8>, acc: Seq<Seq<u8>>) -> Seq<Seq<u8>>
    decreases data.len(),
{
    if data.len() == 0 {
        acc.push(cur)
    } else if data[0] == sep {
        split_loop(data.drop_first(), sep, Seq::empty(), acc.push(cur))
    } else {
        split_loop(data.drop_first(), sep, cur.push(data[0]), acc)
    }
}

/// `data` split at every occurrence of `sep`; empty input gives no parts.
pub open spec fn split_seq(data: Seq<u8>, sep: u8) -> Seq<Seq<u8>> {
    if data.len() == 0 {
        Seq::empty()
    } else {
        split_loop(data, sep, Seq::empty(), Seq::empty())
    }
}

/// Splitting walks over a separator-free prefix by accumulating it.
proof fn lemma_split_loop_skip(a: Seq<u8>, rest: Seq<u8>, sep: u8, cur: Seq<u8>, acc: Seq<Seq<u8>>)
    requires
        sep_free(a, sep),
    ensures
        split_loop(a + rest, sep, cur, acc) == split_loop(rest, sep, cur + a, acc),
    decreases a.len(),
{
    if a.len() == 0 {
        assert(a + rest =~= rest);
        assert(cur + a =~= cur);
    } else {
        let d = a + rest;
        assert(d[0] == a[0]);
        assert(a[0] != sep);
        assert(d.drop_first() =~= a.drop_first() + rest);
        assert forall|i: int| 0 <= i < a.drop_first().len() implies #[trigger] a.drop_first()[i]
            != sep by {
            assert(a.drop_first()[i] == a[i + 1]);
        }
        lemma_split_loop_skip(a.drop_first(), rest, sep, cur.push(a[0]), acc);
        assert(cur.push(a[0]) + a.drop_first() =~= cur + a);
    }
}

/// Splitting the join of separator-free parts recovers the parts, with the
/// first part extending whatever was already accumulated.
proof fn lemma_split_loop_join(parts: Seq<Seq<u8>>, sep: u8, cur: Seq<u8>, acc: Seq<Seq<u8>>)
    requires
        parts.len() > 0,
        all_sep_free(parts, sep),
    ensures
        split_loop(join_seqs(parts, sep), sep, cur, acc) == acc.push(cur + parts[0])
            + parts.drop_first(),
    decreases parts.len(),
{
    if parts.len() == 1 {
        assert(join_seqs(parts, sep) == parts[0]);
        assert(parts[0] + Seq::<u8>::empty() =~= parts[0]);
        lemma_split_loop_skip(parts[0], Seq::empty(), sep, cur, acc);
        assert(acc.push(cur + parts[0]) + parts.drop_first() =~= acc.push(cur + parts[0]));
    } else {
        let rest = parts.drop_first();
        let tail = seq![sep] + join_seqs(rest, sep);
        assert(join_seqs(parts, sep) =~= parts[0] + tail);
        assert(sep_free(parts[0], sep));
        lemma_split_loop_skip(parts[0], tail, sep, cur, acc);
        assert(tail[0] == sep);
        assert(tail.drop_first() =~= join_seqs(rest, sep));
        assert forall|i: int| 0 <= i < rest.len() implies sep_free(#[trigger] rest[i], sep) by {
            assert(rest[i] == parts[i + 1]);
        }
        lemma_split_loop_join(rest, sep, Seq::empty(), acc.push(cur + parts[0]));
        assert(Seq::<u8>::empty() + rest[0] =~= rest[0]);
        assert(acc.push(cur + parts[0]).push(rest[0]) + rest.drop_first() =~= acc.push(
            cur + parts[0],
        ) + parts.drop_first());
    }
}

/// Round trip: splitting the join of separator-free parts gives the parts
/// back, provided a lone part is nonempty (the join of one empty part is
/// the empty sequence, which splits into no parts).
pub proof fn lemma_split_join(parts: Seq<Seq<u8>>, sep: u8)
    requires
        all_sep_free(parts, sep),
        parts.len() == 1 ==> parts[0].len() > 0,
    ensures
        split_seq(join_seqs(parts, sep), sep) == parts,
{
    if parts.len() == 0 {
        assert(split_seq(join_seqs(parts, sep), sep) =~= parts);
    } else {
        if parts.len() >= 2 {
            assert(join_seqs(parts, sep).len() >= 1) by {
                assert(join_seqs(parts, sep) == parts[0] + seq![sep] + join_seqs(
                    parts.drop_first(),
                    sep,
                ));
            }
        }
        assert(join_seqs(parts, sep).len() > 0);
        lemma_split_loop_join(parts, sep, Seq::empty(), Seq::empty());
        assert(Seq::<u8>::empty() + parts[0] =~= parts[0]);
        assert(Seq::<Seq<u8>>::empty().push(parts[0]) + parts.drop_first() =~= parts);
    }
}

/// Appending one more part to a join.
proof fn lemma_join_push(parts: Seq<Seq<u8>>, p: Seq<u8>, sep: u8)
    ensures
        parts.len() == 0 ==> join_seqs(parts.push(p), sep) == p,
        parts.len() > 0 ==> join_seqs(parts.push(p), sep) == join_seqs(parts, sep) + seq![sep] + p,
    decreases parts.len(),
{
    let w = parts.push(p);
    if parts.len() == 0 {
        assert(w.len() == 1 && w[0] == p);
    } else if parts.len() == 1 {
        assert(w.len() == 2);
        assert(w[0] == parts[0]);
        assert(w.drop_first() =~= seq![p]);
        assert(join_seqs(w.drop_first(), sep) == p);
    } else {
        assert(w.drop_first() =~= parts.drop_first().push(p));
        lemma_join_push(parts.drop_first(), p, sep);
        assert(join_seqs(w, sep) == w[0] + seq![sep] + join_seqs(w.drop_first(), sep));
        assert(join_seqs(w.drop_first(), sep) == join_seqs(parts.drop_first(), sep) + seq![sep]
            + p);
        assert(parts[0] + seq![sep] + (join_seqs(parts.drop_first(), sep) + seq![sep] + p) =~= (
        parts[0] + seq![sep] + join_seqs(parts.drop_first(), sep)) + seq![sep] + p);
    }
}

/// The parts joined in order, with `sep` between consecutive parts.
pub fn join_bytes(parts: &Vec<Vec<u8>>, sep: u8) -> (r: Vec<u8>)
    ensures
        r@ == join_seqs(parts.deep_view(), sep),
{
    let mut r: Vec<u8> = Vec::new();
    let mut i: usize = 0;
    while i < parts.len()
        invariant
            0 <= i <= parts@.len(),
            parts.deep_view().len() == parts@.len(),
            r@ == join_seqs(parts.deep_view().take(i as int), sep),
        decreases parts@.len() - i,
    {
        let ghost taken = parts.deep_view().take(i as int);
        if i > 0 {
            r.push(sep);
        }
        let p = &parts[i];
        assert(parts.deep_view()[i as int] == p@);
        let ghost base = r@;
        let mut j: usize = 0;
        while j < p.len()
            invariant
                0 <= j <= p@.len(),
                r@ == base + p@.take(j as int),
            decreases p@.len() - j,
        {
            r.push(p[j]);
            assert(r@ =~= base + p@.take(j as int + 1));
            j = j + 1;
        }
        assert(p@.take(p@.len() as int) =~= p@);
        proof {
            lemma_join_push(taken, p@, sep);
            assert(parts.deep_view().take(i as int + 1) =~= taken.push(p@));
            if i == 0 {
                assert(r@ =~= p@);
            } else {
                assert(r@ =~= join_seqs(taken, sep) + seq![sep] + p@);
            }
        }
        i = i + 1;
    }
    proof {
        assert(parts.deep_view().take(parts@.len() as int) =~= parts.deep_view());
    }
    r
}

/// `data` split at every occurrence of `sep`; empty input gives no parts.
pub fn split_bytes(data: &[u8], sep: u8) -> (r: Vec<Vec<u8>>)
    ensures
        r.deep_view() == split_seq(data@, sep),
{
    let mut out: Vec<Vec<u8>> = Vec::new();
    if data.len() == 0 {
        assert(out.deep_view() =~= split_seq(data@, sep));
        return out;
    }
    let mut cur: Vec<u8> = Vec::new();
    let mut i: usize = 0;
    assert(data@.skip(0) =~= data@);
    assert(out.deep_view() =~= Seq::<Seq<u8>>::empty());
    assert(cur@ =~= Seq::<u8>::empty());
    while i < data.len()
        invariant
            0 <= i <= data@.len(),
            data@.len() > 0,
            split_seq(data@, sep) == split_loop(data@.skip(i as int), sep, cur@, out.deep_view()),
        decreases data@.len() - i,
    {
        let ghost rem = data@.skip(i as int);
        assert(rem[0] == data@[i as int]);
        assert(rem.drop_first() =~= data@.skip(i as int + 1));
        if data[i] == sep {
            let ghost dv0 = out.deep_view();
            out.push(cur);
            assert(out.deep_view() =~~= dv0.push(cur@));
            cur = Vec::new();
        } else {
            cur.push(data[i]);
        }
        i = i + 1;
    }
    assert(data@.skip(data@.len() as int) =~= Seq::<u8>::empty());
    let ghost dv0 = out.deep_view();
    out.push(cur);
    assert(out.deep_view() =~~= dv0.push(cur@));
    out
}

} // verus!
