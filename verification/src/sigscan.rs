//! Byte-pattern signatures: exact bytes and wildcards, built from an
//! IDA-style text pattern or from a string, matched against byte windows.

use vstd::prelude::*;
use vstd::string::StringSliceAdditionalSpecFns;

use crate::scan::{hits, lemma_hits_from_contains, lemma_hits_from_snoc, lemma_hits_from_sorted};

verus! {

/// One signature element: a byte that must match exactly, or a wildcard.
pub type SigElem = Option<u8>;

/// A masked byte pattern.
pub struct Signature {
    pub elements: Vec<SigElem>,
}

/// Whether one signature element accepts one byte.
pub open spec fn elem_matches(e: SigElem, b: u8) -> bool {
    match e {
        None => true,
        Some(x) => x == b,
    }
}

/// Whether the whole pattern matches inside `bytes` at offset `o`.
pub open spec fn matches_at(elems: Seq<SigElem>, bytes: Seq<u8>, o: int) -> bool {
    &&& 0 <= o
    &&& o + elems.len() <= bytes.len()
    &&& forall|i: int| 0 <= i < elems.len() ==> elem_matches(elems[i], bytes[o + i])
}

/// All offsets at which the pattern matches, in ascending order.
pub open spec fn all_matches(elems: Seq<SigElem>, bytes: Seq<u8>) -> Seq<int> {
    hits(|o: int| matches_at(elems, bytes, o), bytes.len() - elems.len() + 1)
}

/// The scan of `all_matches` emits an offset exactly when the pattern
/// matches there.
pub proof fn lemma_all_matches_iff(elems: Seq<SigElem>, bytes: Seq<u8>, o: int)
    ensures
        all_matches(elems, bytes).contains(o) <==> matches_at(elems, bytes, o),
{
    let p = |x: int| matches_at(elems, bytes, x);
    lemma_hits_from_contains(p, bytes.len() - elems.len() + 1, 0, o);
}

/// A match with none above it is the last entry of `all_matches`.
pub proof fn lemma_last_match(elems: Seq<SigElem>, bytes: Seq<u8>, o: int)
    requires
        matches_at(elems, bytes, o),
        forall|j: int| j > o ==> !matches_at(elems, bytes, j),
    ensures
        all_matches(elems, bytes).len() > 0,
        all_matches(elems, bytes).last() == o,
{
    let ms = all_matches(elems, bytes);
    lemma_all_matches_iff(elems, bytes, o);
    let i = choose|i: int| 0 <= i < ms.len() && ms[i] == o;
    lemma_hits_from_sorted(
        |x: int| matches_at(elems, bytes, x),
        bytes.len() - elems.len() + 1,
        0,
    );
    let l = ms[ms.len() - 1];
    assert(ms.contains(l));
    lemma_all_matches_iff(elems, bytes, l);
    assert(l <= o);
}

/// A match with none below it is the first entry of `all_matches`.
pub proof fn lemma_first_match(elems: Seq<SigElem>, bytes: Seq<u8>, o: int)
    requires
        matches_at(elems, bytes, o),
        forall|j: int| 0 <= j < o ==> !matches_at(elems, bytes, j),
    ensures
        all_matches(elems, bytes).len() > 0,
        all_matches(elems, bytes).first() == o,
{
    let ms = all_matches(elems, bytes);
    lemma_all_matches_iff(elems, bytes, o);
    let i = choose|i: int| 0 <= i < ms.len() && ms[i] == o;
    lemma_hits_from_sorted(
        |x: int| matches_at(elems, bytes, x),
        bytes.len() - elems.len() + 1,
        0,
    );
    let l = ms[0];
    assert(ms.contains(l));
    lemma_all_matches_iff(elems, bytes, l);
    assert(l >= o);
}

/// With no match anywhere, `all_matches` is empty.
pub proof fn lemma_no_match(elems: Seq<SigElem>, bytes: Seq<u8>)
    requires
        forall|j: int| !matches_at(elems, bytes, j),
    ensures
        all_matches(elems, bytes).len() == 0,
{
    let ms = all_matches(elems, bytes);
    if ms.len() > 0 {
        assert(ms.contains(ms[0]));
        lemma_all_matches_iff(elems, bytes, ms[0]);
    }
}

/// Each byte of a sequence, as an exact-match element.
pub open spec fn exact_elems(b: Seq<u8>) -> Seq<SigElem> {
    b.map_values(|x: u8| Some(x))
}

/// A byte holding an ASCII hexadecimal digit.
pub open spec fn is_hex_digit(b: u8) -> bool {
    (0x30 <= b <= 0x39) || (0x61 <= b <= 0x66) || (0x41 <= b <= 0x46)
}

/// The value of an ASCII hexadecimal digit.
pub open spec fn hex_val(b: u8) -> u8 {
    if 0x30 <= b <= 0x39 {
        (b - 0x30) as u8
    } else if 0x61 <= b <= 0x66 {
        (b - 0x61 + 10) as u8
    } else {
        (b - 0x41 + 10) as u8
    }
}

/// The element denoted by one whitespace-free token of an IDA pattern:
/// `?` or `??` is a wildcard, two hexadecimal digits are an exact byte,
/// anything else is ill-formed.
pub open spec fn token_elem(t: Seq<u8>) -> Option<SigElem> {
    if t.len() == 1 && t[0] == 0x3fu8 {
        Some(None)
    } else if t.len() == 2 && t[0] == 0x3fu8 && t[1] == 0x3fu8 {
        Some(None)
    } else if t.len() == 2 && is_hex_digit(t[0]) && is_hex_digit(t[1]) {
        Some(Some((hex_val(t[0]) * 16 + hex_val(t[1])) as u8))
    } else {
        None
    }
}

/// The index just past the token starting at `i`: the first space at or
/// after `i`, or the end of the pattern.
pub open spec fn token_end(s: Seq<u8>, i: int) -> int
    decreases s.len() - i,
{
    if i >= s.len() || s[i] == 0x20u8 {
        i
    } else {
        token_end(s, i + 1)
    }
}

pub proof fn lemma_token_end_bounds(s: Seq<u8>, i: int)
    requires
        0 <= i <= s.len(),
    ensures
        i <= token_end(s, i) <= s.len(),
    decreases s.len() - i,
{
    if !(i >= s.len() || s[i] == 0x20u8) {
        lemma_token_end_bounds(s, i + 1);
    }
}

/// Parses the space-separated tokens of an IDA pattern from `i` on.
/// `None` means some token is ill-formed.
pub open spec fn parse_ida(s: Seq<u8>, i: int) -> Option<Seq<SigElem>>
    decreases s.len() - i,
    when 0 <= i
    via parse_ida_decreases
{
    if i >= s.len() {
        Some(Seq::empty())
    } else if s[i] == 0x20u8 {
        parse_ida(s, i + 1)
    } else {
        let j = token_end(s, i);
        match token_elem(s.subrange(i, j)) {
            None => None,
            Some(e) => match parse_ida(s, j) {
                None => None,
                Some(rest) => Some(seq![e] + rest),
            },
        }
    }
}

#[via_fn]
proof fn parse_ida_decreases(s: Seq<u8>, i: int) {
    if 0 <= i < s.len() && s[i] != 0x20u8 {
        lemma_token_end_bounds(s, i + 1);
    }
}

impl Signature {
    /// The number of bytes the signature occupies.
    pub fn len(&self) -> (r: usize)
        ensures
            r == self.elements@.len(),
    {
        self.elements.len()
    }

    /// Builds a signature that matches the bytes of `s` exactly, with an
    /// optional trailing zero byte.
    pub fn string(s: &str, include_terminator: bool) -> (r: Signature)
        ensures
            r.elements@ == exact_elems(s.spec_bytes()) + if include_terminator {
                seq![Some(0u8)]
            } else {
                Seq::<SigElem>::empty()
            },
    {
        let bytes = s.as_bytes();
        let mut elements: Vec<SigElem> = Vec::new();
        let n = bytes.len();
        let mut i: usize = 0;
        while i < n
            invariant
                bytes@.len() == n,
                i <= n,
                elements@ == exact_elems(bytes@.subrange(0, i as int)),
            decreases n - i,
        {
            let b = *vstd::slice::slice_index_get(bytes, i);
            elements.push(Some(b));
            proof {
                assert(exact_elems(bytes@.subrange(0, i + 1)) =~= exact_elems(
                    bytes@.subrange(0, i as int),
                ).push(Some(b)));
            }
            i = i + 1;
        }
        proof {
            assert(bytes@.subrange(0, n as int) =~= bytes@);
        }
        if include_terminator {
            elements.push(Some(0u8));
            proof {
                assert(exact_elems(bytes@) + seq![Some(0u8)] =~= exact_elems(bytes@).push(
                    Some(0u8),
                ));
            }
        } else {
            proof {
                assert(exact_elems(bytes@) + Seq::<SigElem>::empty() =~= exact_elems(bytes@));
            }
        }
        Signature { elements }
    }

    /// Parses an IDA-style pattern: space-separated tokens, each two
    /// hexadecimal digits or a `?`/`??` wildcard. Returns `None` when some
    /// token is ill-formed.
    pub fn ida(pattern: &str) -> (r: Option<Signature>)
        ensures
            match r {
                Some(sig) => parse_ida(pattern.spec_bytes(), 0) == Some(sig.elements@),
                None => parse_ida(pattern.spec_bytes(), 0) is None,
            },
    {
        let bytes = pattern.as_bytes();
        let n = bytes.len();
        let mut elements: Vec<SigElem> = Vec::new();
        let mut i: usize = 0;
        while i < n
            invariant
                bytes@.len() == n,
                bytes@ == pattern.spec_bytes(),
                i <= n,
                parse_ida(bytes@, 0) == match parse_ida(bytes@, i as int) {
                    None => None::<Seq<SigElem>>,
                    Some(rest) => Some(elements@ + rest),
                },
            decreases n - i,
        {
            let c = *vstd::slice::slice_index_get(bytes, i);
            if c == 0x20u8 {
                proof {
                    assert(parse_ida(bytes@, i as int) == parse_ida(bytes@, i + 1));
                }
                i = i + 1;
            } else {
                // Find the end of the token.
                let mut j: usize = i;
                while j < n && *vstd::slice::slice_index_get(bytes, j) != 0x20u8
                    invariant
                        bytes@.len() == n,
                        i <= j <= n,
                        token_end(bytes@, i as int) == token_end(bytes@, j as int),
                    decreases n - j,
                {
                    j = j + 1;
                }
                proof {
                    assert(token_end(bytes@, i as int) == j as int);
                }
                // Decode the token.
                let tok_len = j - i;
                let e: Option<SigElem> = if tok_len == 1 && *vstd::slice::slice_index_get(
                    bytes,
                    i,
                ) == 0x3fu8 {
                    Some(None)
                } else if tok_len == 2 && *vstd::slice::slice_index_get(bytes, i) == 0x3fu8
                    && *vstd::slice::slice_index_get(bytes, i + 1) == 0x3fu8 {
                    Some(None)
                } else if tok_len == 2 {
                    let h0 = *vstd::slice::slice_index_get(bytes, i);
                    let h1 = *vstd::slice::slice_index_get(bytes, i + 1);
                    match (hex_digit_value(h0), hex_digit_value(h1)) {
                        (Some(v0), Some(v1)) => Some(Some(v0 * 16 + v1)),
                        _ => None,
                    }
                } else {
                    None
                };
                proof {
                    let t = bytes@.subrange(i as int, j as int);
                    assert(t.len() == tok_len);
                    assert(forall|k: int| 0 <= k < t.len() ==> t[k] == bytes@[i + k]);
                    assert(e == token_elem(t));
                }
                match e {
                    None => {
                        proof {
                            assert(parse_ida(bytes@, i as int) is None);
                        }
                        return None;
                    },
                    Some(elem) => {
                        let ghost old_elems = elements@;
                        elements.push(elem);
                        proof {
                            assert(parse_ida(bytes@, i as int) == match parse_ida(
                                bytes@,
                                j as int,
                            ) {
                                None => None::<Seq<SigElem>>,
                                Some(rest) => Some(seq![elem] + rest),
                            });
                            let pj = parse_ida(bytes@, j as int);
                            if pj is Some {
                                assert(old_elems + (seq![elem] + pj.unwrap()) =~= elements@
                                    + pj.unwrap());
                            }
                        }
                        i = j;
                    },
                }
            }
        }
        proof {
            assert(parse_ida(bytes@, n as int) == Some(Seq::<SigElem>::empty()));
            assert(elements@ + Seq::<SigElem>::empty() =~= elements@);
        }
        Some(Signature { elements })
    }

    /// Whether the pattern matches inside `bytes` at offset `o`.
    pub fn matches_here(&self, bytes: &[u8], o: usize) -> (r: bool)
        requires
            o + self.elements@.len() <= bytes@.len(),
        ensures
            r == matches_at(self.elements@, bytes@, o as int),
    {
        let k = self.elements.len();
        let n = bytes.len();
        let mut i: usize = 0;
        while i < k
            invariant
                k == self.elements@.len(),
                n == bytes@.len(),
                o + k <= n,
                i <= k,
                forall|j: int| 0 <= j < i ==> elem_matches(self.elements@[j], bytes@[o + j]),
            decreases k - i,
        {
            match self.elements[i] {
                None => {},
                Some(x) => {
                    let b = *vstd::slice::slice_index_get(bytes, o + i);
                    if x != b {
                        assert(!elem_matches(self.elements@[i as int], bytes@[o + i]));
                        return false;
                    }
                },
            }
            i = i + 1;
        }
        true
    }

    /// Whether the pattern matches at the very start of `bytes`.
    pub fn matches(&self, bytes: &[u8]) -> (r: bool)
        ensures
            r == matches_at(self.elements@, bytes@, 0),
    {
        if self.elements.len() > bytes.len() {
            false
        } else {
            self.matches_here(bytes, 0)
        }
    }

    /// The first offset at which the pattern matches in `bytes`.
    pub fn next(&self, bytes: &[u8]) -> (r: Option<usize>)
        ensures
            match r {
                Some(o) => matches_at(self.elements@, bytes@, o as int) && forall|j: int|
                    0 <= j < o ==> !matches_at(self.elements@, bytes@, j),
                None => forall|j: int| !matches_at(self.elements@, bytes@, j),
            },
    {
        let k = self.elements.len();
        let n = bytes.len();
        if k > n {
            return None;
        }
        let mut o: usize = 0;
        while o <= n - k
            invariant
                k == self.elements@.len(),
                n == bytes@.len(),
                k <= n,
                o <= n - k + 1,
                forall|j: int| 0 <= j < o ==> !matches_at(self.elements@, bytes@, j),
            decreases n - k - o + 1,
        {
            if self.matches_here(bytes, o) {
                return Some(o);
            }
            o = o + 1;
        }
        None
    }

    /// The last offset at which the pattern matches in `bytes`.
    pub fn prev(&self, bytes: &[u8]) -> (r: Option<usize>)
        ensures
            match r {
                Some(o) => matches_at(self.elements@, bytes@, o as int) && forall|j: int|
                    j > o ==> !matches_at(self.elements@, bytes@, j),
                None => forall|j: int| !matches_at(self.elements@, bytes@, j),
            },
    {
        let k = self.elements.len();
        let n = bytes.len();
        if k > n {
            return None;
        }
        if k == 0 {
            return Some(n);
        }
        let mut o: usize = n - k + 1;
        while o > 0
            invariant
                k == self.elements@.len(),
                n == bytes@.len(),
                k <= n,
                o <= n - k + 1,
                forall|j: int| j >= o ==> !matches_at(self.elements@, bytes@, j),
            decreases o,
        {
            o = o - 1;
            if self.matches_here(bytes, o) {
                return Some(o);
            }
        }
        None
    }

    /// All offsets at which the pattern matches in `bytes`, ascending.
    pub fn all(&self, bytes: &[u8]) -> (r: Vec<usize>)
        ensures
            r@.map_values(|x: usize| x as int) == all_matches(self.elements@, bytes@),
    {
        let ghost p = |x: int| matches_at(self.elements@, bytes@, x);
        let k = self.elements.len();
        let n = bytes.len();
        let mut r: Vec<usize> = Vec::new();
        if k > n {
            proof {
                assert(r@.map_values(|x: usize| x as int) =~= hits(p, n - k + 1));
            }
            return r;
        }
        let end = n - k;
        let mut o: usize = 0;
        loop
            invariant_except_break
                o <= end,
                r@.map_values(|x: usize| x as int) == hits(p, o as int),
            invariant
                k == self.elements@.len(),
                n == bytes@.len(),
                k <= n,
                end == n - k,
                p == (|x: int| matches_at(self.elements@, bytes@, x)),
            ensures
                r@.map_values(|x: usize| x as int) == hits(p, end + 1),
            decreases end - o,
        {
            proof {
                lemma_hits_from_snoc(p, o as int, 0);
            }
            if self.matches_here(bytes, o) {
                r.push(o);
                proof {
                    assert(r@.map_values(|x: usize| x as int) =~= r@.drop_last().map_values(
                        |x: usize| x as int,
                    ).push(o as int));
                }
            }
            if o == end {
                break;
            }
            o = o + 1;
        }
        proof {
            assert(hits(p, (n - k + 1) as int) == all_matches(self.elements@, bytes@));
        }
        r
    }
}

/// The value of an ASCII hexadecimal digit, or `None` for any other byte.
fn hex_digit_value(b: u8) -> (r: Option<u8>)
    ensures
        r is Some <==> is_hex_digit(b),
        r is Some ==> r == Some(hex_val(b)),
{
    if 0x30 <= b && b <= 0x39 {
        Some(b - 0x30)
    } else if 0x61 <= b && b <= 0x66 {
        Some(b - 0x61 + 10)
    } else if 0x41 <= b && b <= 0x46 {
        Some(b - 0x41 + 10)
    } else {
        None
    }
}

} // verus!
