//! Helpers over byte sequences: equality and the final `/`-separated
//! segment of a path, both with exact contracts.

use vstd::prelude::*;

verus! {

/// The ASCII path separator.
pub open spec fn slash() -> u8 {
    0x2fu8
}

/// The suffix of `s` after the last occurrence of `b`, or `s` itself when
/// `b` does not occur.
pub open spec fn after_last(s: Seq<u8>, b: u8) -> Seq<u8>
    decreases s.len(),
{
    if s.len() == 0 {
        s
    } else if s.last() == b {
        Seq::empty()
    } else {
        after_last(s.drop_last(), b).push(s.last())
    }
}

/// The final `/`-separated segment of a path given as bytes.
pub open spec fn basename(s: Seq<u8>) -> Seq<u8> {
    after_last(s, slash())
}

/// When `b` occurs last at index `i`, `after_last` is the suffix past `i`;
/// when `b` does not occur at all, it is the whole sequence.
pub proof fn lemma_after_last_characterization(s: Seq<u8>, b: u8, i: int)
    requires
        0 <= i < s.len(),
        s[i] == b,
        forall|j: int| i < j < s.len() ==> s[j] != b,
    ensures
        after_last(s, b) == s.subrange(i + 1, s.len() as int),
    decreases s.len(),
{
    if i == s.len() - 1 {
        assert(s.subrange(i + 1, s.len() as int) =~= Seq::empty());
    } else {
        lemma_after_last_characterization(s.drop_last(), b, i);
        assert(s.drop_last().subrange(i + 1, s.len() - 1).push(s.last()) =~= s.subrange(
            i + 1,
            s.len() as int,
        ));
    }
}

pub proof fn lemma_after_last_absent(s: Seq<u8>, b: u8)
    requires
        forall|j: int| 0 <= j < s.len() ==> s[j] != b,
    ensures
        after_last(s, b) == s,
    decreases s.len(),
{
    if s.len() > 0 {
        lemma_after_last_absent(s.drop_last(), b);
        assert(s.drop_last().push(s.last()) =~= s);
    }
}

/// Whether two byte slices hold the same bytes.
pub fn bytes_eq(a: &[u8], b: &[u8]) -> (r: bool)
    ensures
        r == (a@ == b@),
{
    let n = a.len();
    if n != b.len() {
        proof {
            assert(a@.len() != b@.len());
        }
        return false;
    }
    let mut i: usize = 0;
    while i < n
        invariant
            a@.len() == n,
            b@.len() == n,
            i <= n,
            forall|j: int| 0 <= j < i ==> a@[j] == b@[j],
        decreases n - i,
    {
        if *vstd::slice::slice_index_get(a, i) != *vstd::slice::slice_index_get(b, i) {
            return false;
        }
        i = i + 1;
    }
    proof {
        assert(a@ =~= b@);
    }
    true
}

/// Whether `target` equals the final `/`-separated segment of `s`.
pub fn matches_basename(s: &[u8], target: &[u8]) -> (r: bool)
    ensures
        r == (basename(s@) == target@),
{
    let n = s.len();
    let m = target.len();
    // Find the index just past the last slash, scanning from the end.
    let mut k: usize = n;
    while k > 0 && *vstd::slice::slice_index_get(s, k - 1) != 0x2fu8
        invariant
            s@.len() == n,
            k <= n,
            forall|j: int| k <= j < n ==> s@[j] != slash(),
        decreases k,
    {
        k = k - 1;
    }
    proof {
        if k > 0 {
            lemma_after_last_characterization(s@, slash(), k - 1);
            assert(basename(s@) == s@.subrange(k as int, n as int));
        } else {
            lemma_after_last_absent(s@, slash());
            assert(s@.subrange(0, n as int) =~= s@);
        }
    }
    // Compare the suffix with the target.
    if n - k != m {
        proof {
            assert(basename(s@).len() == n - k);
        }
        return false;
    }
    let mut i: usize = 0;
    while i < m
        invariant
            s@.len() == n,
            target@.len() == m,
            k + m == n,
            k <= n,
            i <= m,
            basename(s@) == s@.subrange(k as int, n as int),
            forall|j: int| 0 <= j < i ==> s@[k + j] == target@[j],
        decreases m - i,
    {
        if *vstd::slice::slice_index_get(s, k + i) != *vstd::slice::slice_index_get(target, i) {
            proof {
                assert(basename(s@)[i as int] != target@[i as int]);
            }
            return false;
        }
        i = i + 1;
    }
    proof {
        assert(basename(s@) =~= target@);
    }
    true
}

} // verus!
