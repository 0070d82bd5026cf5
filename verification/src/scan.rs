//! A generic model of scanning a byte window: the ascending sequence of all
//! offsets below a bound that satisfy a predicate. The signature matcher and
//! the cross-reference finders are all instances of this one skeleton.

use vstd::prelude::*;

verus! {

/// All offsets `x` with `o <= x < end` satisfying `p`, in ascending order.
pub open spec fn hits_from(p: spec_fn(int) -> bool, end: int, o: int) -> Seq<int>
    decreases end - o,
{
    if o >= end {
        Seq::empty()
    } else if p(o) {
        seq![o] + hits_from(p, end, o + 1)
    } else {
        hits_from(p, end, o + 1)
    }
}

/// All offsets in `[0, end)` satisfying `p`, in ascending order.
pub open spec fn hits(p: spec_fn(int) -> bool, end: int) -> Seq<int> {
    hits_from(p, end, 0)
}

/// Membership: the scan emits an offset exactly when the predicate holds of
/// it and it lies inside the scanned range.
pub proof fn lemma_hits_from_contains(p: spec_fn(int) -> bool, end: int, o: int, x: int)
    ensures
        hits_from(p, end, o).contains(x) <==> (o <= x < end && p(x)),
    decreases end - o,
{
    if o < end {
        lemma_hits_from_contains(p, end, o + 1, x);
        if p(o) {
            let rest = hits_from(p, end, o + 1);
            let whole = seq![o] + rest;
            if x == o {
                assert(whole[0] == x);
            }
            if rest.contains(x) {
                let i = choose|i: int| 0 <= i < rest.len() && rest[i] == x;
                assert(whole[i + 1] == x);
            }
            if whole.contains(x) {
                let i = choose|i: int| 0 <= i < whole.len() && whole[i] == x;
                if i > 0 {
                    assert(rest[i - 1] == x);
                    assert(rest.contains(x));
                }
            }
        }
    }
}

/// Every emitted offset lies in `[o, end)` and the emitted sequence is
/// strictly ascending.
pub proof fn lemma_hits_from_sorted(p: spec_fn(int) -> bool, end: int, o: int)
    ensures
        forall|i: int|
            0 <= i < hits_from(p, end, o).len() ==> o <= #[trigger] hits_from(p, end, o)[i] < end,
        forall|i: int, j: int|
            0 <= i < j < hits_from(p, end, o).len() ==> #[trigger] hits_from(p, end, o)[i]
                < #[trigger] hits_from(p, end, o)[j],
    decreases end - o,
{
    if o < end {
        lemma_hits_from_sorted(p, end, o + 1);
        let rest = hits_from(p, end, o + 1);
        if p(o) {
            let whole = seq![o] + rest;
            assert(forall|i: int| 0 <= i < whole.len() ==> whole[i] == if i == 0 {
                o
            } else {
                rest[i - 1]
            });
        }
    }
}

/// Extending the scanned range by one offset on the high end appends that
/// offset when the predicate holds of it.
pub proof fn lemma_hits_from_snoc(p: spec_fn(int) -> bool, end: int, o: int)
    requires
        o <= end,
    ensures
        hits_from(p, end + 1, o) == if p(end) {
            hits_from(p, end, o).push(end)
        } else {
            hits_from(p, end, o)
        },
    decreases end - o,
{
    if o < end {
        lemma_hits_from_snoc(p, end, o + 1);
        if p(o) {
            if p(end) {
                assert(seq![o] + hits_from(p, end, o + 1).push(end) =~= (seq![o] + hits_from(
                    p,
                    end,
                    o + 1,
                )).push(end));
            }
        }
    } else {
        assert(hits_from(p, end + 1, end) == if p(end) {
            seq![end] + hits_from(p, end + 1, end + 1)
        } else {
            hits_from(p, end + 1, end + 1)
        });
        if p(end) {
            assert(seq![end] + Seq::<int>::empty() =~= Seq::<int>::empty().push(end));
        }
    }
}

/// The concatenation, in order, of `f` applied to each element of `s`.
pub open spec fn concat_over<A>(s: Seq<A>, f: spec_fn(A) -> Seq<int>) -> Seq<int>
    decreases s.len(),
{
    if s.len() == 0 {
        Seq::empty()
    } else {
        f(s[0]) + concat_over(s.drop_first(), f)
    }
}

/// Peeling the last element off a concatenation.
pub proof fn lemma_concat_over_snoc<A>(s: Seq<A>, f: spec_fn(A) -> Seq<int>)
    requires
        s.len() > 0,
    ensures
        concat_over(s, f) == concat_over(s.drop_last(), f) + f(s.last()),
    decreases s.len(),
{
    if s.len() == 1 {
        assert(s.drop_first().len() == 0);
        assert(s.drop_last().len() == 0);
        assert(concat_over(s.drop_first(), f) =~= Seq::<int>::empty());
        assert(concat_over(s.drop_last(), f) =~= Seq::<int>::empty());
        assert(f(s[0]) + Seq::<int>::empty() =~= Seq::<int>::empty() + f(s.last()));
    } else {
        lemma_concat_over_snoc(s.drop_first(), f);
        assert(s.drop_first().drop_last() =~= s.drop_last().drop_first());
        assert(s.drop_first().last() == s.last());
        assert(s.drop_last()[0] == s[0]);
        assert(concat_over(s.drop_last(), f) == f(s.drop_last()[0]) + concat_over(
            s.drop_last().drop_first(),
            f,
        ));
        assert(f(s[0]) + (concat_over(s.drop_last().drop_first(), f) + f(s.last())) =~= (f(
            s.drop_last()[0],
        ) + concat_over(s.drop_last().drop_first(), f)) + f(s.last()));
    }
}

/// Membership in a concatenation: some element's sequence contains the
/// value.
pub proof fn lemma_concat_over_contains<A>(s: Seq<A>, f: spec_fn(A) -> Seq<int>, x: int)
    ensures
        concat_over(s, f).contains(x) <==> exists|i: int|
            0 <= i < s.len() && (#[trigger] f(s[i])).contains(x),
    decreases s.len(),
{
    if s.len() > 0 {
        lemma_concat_over_contains(s.drop_first(), f, x);
        let whole = f(s[0]) + concat_over(s.drop_first(), f);
        if f(s[0]).contains(x) {
            let i = choose|i: int| #![trigger f(s[0])[i]] 0 <= i < f(s[0]).len() && f(s[0])[i]
                == x;
            assert(whole[i] == x);
        }
        if concat_over(s.drop_first(), f).contains(x) {
            let rest = concat_over(s.drop_first(), f);
            let i = choose|i: int| #![trigger rest[i]] 0 <= i < rest.len() && rest[i] == x;
            assert(whole[f(s[0]).len() + i] == x);
            let j = choose|j: int|
                0 <= j < s.drop_first().len() && (#[trigger] f(s.drop_first()[j])).contains(x);
            assert(s.drop_first()[j] == s[j + 1]);
            assert(f(s[j + 1]).contains(x));
        }
        if whole.contains(x) {
            let i = choose|i: int| 0 <= i < whole.len() && whole[i] == x;
            if i < f(s[0]).len() {
                assert(f(s[0])[i] == x);
                assert(f(s[0]).contains(x));
            } else {
                assert(concat_over(s.drop_first(), f)[i - f(s[0]).len()] == x);
                assert(concat_over(s.drop_first(), f).contains(x));
            }
        }
        if exists|i: int| 0 <= i < s.len() && (#[trigger] f(s[i])).contains(x) {
            let i = choose|i: int| 0 <= i < s.len() && (#[trigger] f(s[i])).contains(x);
            if i > 0 {
                assert(s.drop_first()[i - 1] == s[i]);
                assert(f(s.drop_first()[i - 1]).contains(x));
            }
        }
    }
}

} // verus!
