//! Searching byte strings: first occurrence of a pattern and splitting on a
//! separator, as `str::find` and `str::split` do.

use vstd::prelude::*;

verus! {

/// Whether `p` occurs in `h` at index `i`.
pub open spec fn matches_at(h: Seq<u8>, p: Seq<u8>, i: int) -> bool {
    0 <= i && i + p.len() <= h.len() && h.subrange(i, i + p.len()) == p
}

/// Index of the first occurrence of `p` in `h` at or after `i`.
pub open spec fn find_from(h: Seq<u8>, p: Seq<u8>, i: nat) -> Option<nat>
    decreases h.len() + 1 - i,
{
    if i + p.len() > h.len() {
        None
    } else if matches_at(h, p, i as int) {
        Some(i)
    } else {
        find_from(h, p, i + 1)
    }
}

/// Index of the first occurrence of `p` in `h`.
pub open spec fn find(h: Seq<u8>, p: Seq<u8>) -> Option<nat> {
    find_from(h, p, 0)
}

/// Whether `p` occurs in `h`.
pub open spec fn contains(h: Seq<u8>, p: Seq<u8>) -> bool {
    find(h, p) is Some
}

/// The pieces of `h` between the occurrences of `sep`, found from left to
/// right without overlap.
pub open spec fn split_pieces(h: Seq<u8>, sep: Seq<u8>) -> Seq<Seq<u8>>
    decreases h.len(),
{
    if sep.len() == 0 {
        seq![h]
    } else {
        match find(h, sep) {
            None => seq![h],
            Some(i) => {
                proof {
                    lemma_find_from(h, sep, 0);
                }
                seq![h.take(i as int)] + split_pieces(h.skip(i + sep.len() as int), sep)
            },
        }
    }
}

/// What `find_from` returns: an occurrence at or after `i`, none before it.
pub proof fn lemma_find_from(h: Seq<u8>, p: Seq<u8>, i: nat)
    ensures
        match find_from(h, p, i) {
            Some(j) => i <= j && matches_at(h, p, j as int) && forall|k: int|
                i <= k < j ==> !matches_at(h, p, k),
            None => forall|k: int| i <= k ==> !matches_at(h, p, k),
        },
    decreases h.len() + 1 - i,
{
    if i + p.len() <= h.len() && !matches_at(h, p, i as int) {
        lemma_find_from(h, p, i + 1);
    }
}

/// `find_from` from `i` is the first occurrence at or after `i`.
pub proof fn lemma_find_from_first(h: Seq<u8>, p: Seq<u8>, i: nat, j: nat)
    requires
        i <= j,
        matches_at(h, p, j as int),
        forall|k: int| i <= k < j ==> !matches_at(h, p, k),
    ensures
        find_from(h, p, i) == Some(j),
    decreases j - i,
{
    if i < j {
        lemma_find_from_first(h, p, i + 1, j);
    }
}

/// Searching from `i` in `h` is searching from `i - d` in `h.skip(d)`.
pub proof fn lemma_find_from_skip(h: Seq<u8>, p: Seq<u8>, d: nat, i: nat)
    requires
        d <= i,
        d <= h.len(),
    ensures
        find_from(h, p, i) == match find_from(h.skip(d as int), p, (i - d) as nat) {
            Some(j) => Some(j + d),
            None => None,
        },
    decreases h.len() + 1 - i,
{
    let t = h.skip(d as int);
    if i + p.len() <= h.len() {
        assert(h.subrange(i as int, (i + p.len()) as int) =~= t.subrange(i - d, i - d + p.len()));
        if !matches_at(h, p, i as int) {
            lemma_find_from_skip(h, p, d, i + 1);
        }
    }
}

/// An occurrence in `h` is an occurrence in `h` followed by more bytes.
pub proof fn lemma_matches_at_extend(h: Seq<u8>, x: Seq<u8>, p: Seq<u8>, k: int)
    requires
        matches_at(h, p, k),
    ensures
        matches_at(h + x, p, k),
{
    assert((h + x).subrange(k, k + p.len()) =~= h.subrange(k, k + p.len()));
}

/// A text that holds `p` still holds it when more bytes follow.
pub proof fn lemma_contains_extend(h: Seq<u8>, x: Seq<u8>, p: Seq<u8>)
    requires
        contains(h, p),
    ensures
        contains(h + x, p),
{
    lemma_find_from(h, p, 0);
    let j = find(h, p)->0;
    lemma_matches_at_extend(h, x, p, j as int);
    lemma_find_from(h + x, p, 0);
}

/// Splitting a text, a separator and a last piece without the separator
/// gives the pieces of the text and then that last piece, when the
/// separator's first byte does not recur in it (so no occurrence can
/// straddle the text's end).
pub proof fn lemma_split_pieces_append(h: Seq<u8>, sep: Seq<u8>, f: Seq<u8>)
    requires
        sep.len() > 0,
        forall|d: int| 0 < d < sep.len() ==> #[trigger] sep[d] != sep[0],
        !contains(f, sep),
    ensures
        split_pieces(h + sep + f, sep) == split_pieces(h, sep) + seq![f],
    decreases h.len(),
{
    let g = h + sep + f;
    lemma_find_from(h, sep, 0);
    lemma_find_from(f, sep, 0);
    assert(g.subrange(h.len() as int, (h.len() + sep.len()) as int) =~= sep);
    match find(h, sep) {
        Some(i) => {
            assert forall|k: int| 0 <= k <= i implies matches_at(g, sep, k) == matches_at(h, sep, k) by {
                assert(g.subrange(k, k + sep.len()) =~= h.subrange(k, k + sep.len()));
            }
            lemma_find_from_first(g, sep, 0, i);
            let t = h.skip(i + sep.len() as int);
            assert(g.skip(i + sep.len() as int) =~= t + sep + f);
            assert(g.take(i as int) =~= h.take(i as int));
            lemma_split_pieces_append(t, sep, f);
            assert(split_pieces(g, sep) =~= seq![h.take(i as int)] + (split_pieces(t, sep) + seq![f]));
        },
        None => {
            assert forall|k: int| 0 <= k < h.len() implies !matches_at(g, sep, k) by {
                if k + sep.len() <= h.len() {
                    assert(g.subrange(k, k + sep.len()) =~= h.subrange(k, k + sep.len()));
                    assert(!matches_at(h, sep, k));
                } else if matches_at(g, sep, k) {
                    let d = h.len() - k;
                    assert(0 < d < sep.len());
                    assert(g.subrange(k, k + sep.len())[d] == g[k + d]);
                    assert(g[k + d] == sep[0]);
                    assert(sep[d] == g.subrange(k, k + sep.len())[d]);
                    assert(sep[d] != sep[0]);
                }
            }
            lemma_find_from_first(g, sep, 0, h.len());
            assert(g.take(h.len() as int) =~= h);
            assert(g.skip((h.len() + sep.len()) as int) =~= f);
            assert(split_pieces(f, sep) == seq![f]);
        },
    }
}

/// Whether `p` occurs in `h` at `i`.
pub fn bytes_match_at(h: &[u8], p: &[u8], i: usize) -> (r: bool)
    ensures
        r == matches_at(h@, p@, i as int),
{
    if i > h.len() || p.len() > h.len() - i {
        return false;
    }
    let mut k: usize = 0;
    while k < p.len()
        invariant
            k <= p.len(),
            i + p.len() <= h.len(),
            forall|q: int| 0 <= q < k ==> h@[i + q] == p@[q],
        decreases p.len() - k,
    {
        if h[i + k] != p[k] {
            assert(h@.subrange(i as int, i + p.len())[k as int] != p@[k as int]);
            return false;
        }
        k += 1;
    }
    assert(h@.subrange(i as int, i + p.len()) =~= p@);
    true
}

/// Index of the first occurrence of `p` in `h` at or after `from`.
pub fn find_bytes(h: &[u8], p: &[u8], from: usize) -> (r: Option<usize>)
    ensures
        match r {
            Some(j) => find_from(h@, p@, from as nat) == Some(j as nat),
            None => find_from(h@, p@, from as nat) is None,
        },
{
    let mut i = from;
    while i <= h.len() && p.len() <= h.len() - i
        invariant
            from <= i,
            find_from(h@, p@, from as nat) == find_from(h@, p@, i as nat),
        decreases h.len() + 1 - i,
    {
        if bytes_match_at(h, p, i) {
            return Some(i);
        }
        assert(p@.len() > 0) by {
            if p@.len() == 0 {
                assert(h@.subrange(i as int, i as int) =~= p@);
            }
        }
        i += 1;
    }
    None
}

/// Appends the bytes of `b` to `out`.
pub fn append_bytes(out: &mut Vec<u8>, b: &[u8])
    ensures
        final(out)@ == old(out)@ + b@,
{
    let mut i: usize = 0;
    while i < b.len()
        invariant
            i <= b.len(),
            out@ == old(out)@ + b@.take(i as int),
        decreases b.len() - i,
    {
        out.push(b[i]);
        assert(b@.take(i + 1) =~= b@.take(i as int).push(b@[i as int]));
        i += 1;
    }
    assert(b@.take(b.len() as int) =~= b@);
}

} // verus!
