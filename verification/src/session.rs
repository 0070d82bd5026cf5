//! A pipeline over a pool of pointers: each operation maps or filters the
//! pool, and pointers invalidated by a mutating step are dropped before
//! the next step sees them.

use vstd::prelude::*;
use vstd::string::StringSliceAdditionalSpecFns;

use crate::endian::Endianness;
use crate::instr::Isa;
use crate::safe_pointer::{
    SafePointer, XrefKind, deref_rel, next_instruction_rel, next_occurrence_rel,
    pointer_addrs, prev_occurrence_rel, ref_addrs, rel_to_abs_rel, spec_add, spec_does_match,
    spec_sub,
};
use crate::scan::{concat_over, lemma_concat_over_snoc};
use crate::search_constraints::SearchConstraints;
use crate::sigscan::Signature;

verus! {

/// A pool of pointers, consumed by each operation and by the terminals.
#[derive(Debug)]
pub struct Session {
    pub pool: Vec<SafePointer>,
}

/// The pool with its invalidated pointers dropped.
pub open spec fn drop_invalid(s: Seq<SafePointer>) -> Seq<SafePointer> {
    s.filter(|p: SafePointer| !p.invalid)
}

/// Whether `b` arises from `a` by advancing each pointer by `operand`
/// and dropping the invalidated results.
pub open spec fn stepped_add(a: Seq<SafePointer>, b: Seq<SafePointer>, operand: usize) -> bool {
    exists|m: Seq<SafePointer>|
        #![trigger drop_invalid(m)]
        m.len() == a.len() && (forall|i: int|
            #![trigger m[i]]
            0 <= i < a.len() ==> m[i] == spec_add(a[i], operand)) && b == drop_invalid(m)
}

/// Whether `b` arises from `a` by moving each pointer back by `operand`
/// and dropping the invalidated results.
pub open spec fn stepped_sub(a: Seq<SafePointer>, b: Seq<SafePointer>, operand: usize) -> bool {
    exists|m: Seq<SafePointer>|
        #![trigger drop_invalid(m)]
        m.len() == a.len() && (forall|i: int|
            #![trigger m[i]]
            0 <= i < a.len() ==> m[i] == spec_sub(a[i], operand)) && b == drop_invalid(m)
}

/// Whether `b` arises from `a` by dereferencing each pointer and dropping
/// the invalidated results.
pub open spec fn stepped_deref(a: Seq<SafePointer>, b: Seq<SafePointer>, e: Endianness) -> bool {
    exists|m: Seq<SafePointer>|
        #![trigger drop_invalid(m)]
        m.len() == a.len() && (forall|i: int|
            0 <= i < a.len() ==> #[trigger] deref_rel(a[i], m[i], e)) && b == drop_invalid(m)
}

/// Whether `b` arises from `a` by converting each pointer's relative
/// displacement to an absolute address and dropping the invalidated
/// results.
pub open spec fn stepped_rel_to_abs(
    a: Seq<SafePointer>,
    b: Seq<SafePointer>,
    e: Endianness,
) -> bool {
    exists|m: Seq<SafePointer>|
        #![trigger drop_invalid(m)]
        m.len() == a.len() && (forall|i: int|
            0 <= i < a.len() ==> #[trigger] rel_to_abs_rel(a[i], m[i], e)) && b == drop_invalid(
            m,
        )
}

/// Whether `b` arises from `a` by advancing each pointer past one
/// instruction and dropping the invalidated results.
pub open spec fn stepped_next_instruction(
    a: Seq<SafePointer>,
    b: Seq<SafePointer>,
    isa: Isa,
) -> bool {
    exists|m: Seq<SafePointer>|
        #![trigger drop_invalid(m)]
        m.len() == a.len() && (forall|i: int|
            0 <= i < a.len() ==> #[trigger] next_instruction_rel(a[i], m[i], isa)) && b
            == drop_invalid(m)
}

/// Whether `b` arises from `a` by moving each pointer to the previous
/// occurrence of the pattern and dropping the invalidated results.
pub open spec fn stepped_prev_occurrence(
    a: Seq<SafePointer>,
    b: Seq<SafePointer>,
    elems: Seq<crate::sigscan::SigElem>,
    c: SearchConstraints,
) -> bool {
    exists|m: Seq<SafePointer>|
        #![trigger drop_invalid(m)]
        m.len() == a.len() && (forall|i: int|
            0 <= i < a.len() ==> #[trigger] prev_occurrence_rel(a[i], m[i], elems, c)) && b
            == drop_invalid(m)
}

/// Whether `b` arises from `a` by moving each pointer to the next
/// occurrence of the pattern and dropping the invalidated results.
pub open spec fn stepped_next_occurrence(
    a: Seq<SafePointer>,
    b: Seq<SafePointer>,
    elems: Seq<crate::sigscan::SigElem>,
    c: SearchConstraints,
) -> bool {
    exists|m: Seq<SafePointer>|
        #![trigger drop_invalid(m)]
        m.len() == a.len() && (forall|i: int|
            0 <= i < a.len() ==> #[trigger] next_occurrence_rel(a[i], m[i], elems, c)) && b
            == drop_invalid(m)
}

/// Whether `b` arises from `a` by one application of `f` to each pointer,
/// dropping the invalidated results.
pub open spec fn stepped_mutate<F: Fn(SafePointer) -> SafePointer>(
    f: F,
    a: Seq<SafePointer>,
    b: Seq<SafePointer>,
) -> bool {
    exists|m: Seq<SafePointer>|
        #![trigger drop_invalid(m)]
        m.len() == a.len() && (forall|i: int|
            0 <= i < a.len() ==> call_ensures(f, (a[i],), #[trigger] m[i])) && b == drop_invalid(
            m,
        )
}

/// Whether `b` arises from `a` by `k` applications of `f` to each
/// pointer, dropping the invalidated results.
pub open spec fn stepped_repeat<F: Fn(SafePointer) -> SafePointer>(
    f: F,
    k: nat,
    a: Seq<SafePointer>,
    b: Seq<SafePointer>,
) -> bool {
    exists|m: Seq<SafePointer>|
        #![trigger drop_invalid(m)]
        m.len() == a.len() && (forall|i: int|
            0 <= i < a.len() ==> rel_pow(f, k, a[i], #[trigger] m[i])) && b == drop_invalid(m)
}

/// Whether every pointer of a pool reads from the given snapshot and the
/// snapshot is well formed.
pub open spec fn pool_wf(s: Seq<SafePointer>) -> bool {
    forall|i: int| 0 <= i < s.len() ==> (#[trigger] s[i]).wf()
}

/// Whether `b` is a subsequence of `a`: its elements appear in `a`, in
/// order, witnessed by a strictly increasing index map.
pub open spec fn is_subsequence<T>(b: Seq<T>, a: Seq<T>) -> bool {
    exists|idx: Seq<int>|
        idx.len() == b.len() && (forall|k: int|
            0 <= k < b.len() ==> 0 <= #[trigger] idx[k] < a.len() && a[idx[k]] == b[k]) && (
        forall|k: int, l: int| 0 <= k < l < b.len() ==> #[trigger] idx[k] < #[trigger] idx[l])
}

/// Filtering distributes over extending the pool by one pointer.
pub proof fn lemma_drop_invalid_push(m: Seq<SafePointer>, x: SafePointer)
    ensures
        drop_invalid(m.push(x)) == if !x.invalid {
            drop_invalid(m).push(x)
        } else {
            drop_invalid(m)
        },
{
    reveal_with_fuel(Seq::<SafePointer>::filter, 2);
    assert(m.push(x).drop_last() =~= m);
    assert(m.push(x).last() == x);
}

pub proof fn lemma_drop_invalid_empty()
    ensures
        drop_invalid(Seq::<SafePointer>::empty()) == Seq::<SafePointer>::empty(),
{
    reveal_with_fuel(Seq::<SafePointer>::filter, 1);
}

/// Every pointer that survives the drop was in the pool.
pub proof fn lemma_drop_invalid_members(m: Seq<SafePointer>)
    ensures
        forall|k: int|
            0 <= k < drop_invalid(m).len() ==> m.contains(#[trigger] drop_invalid(m)[k]),
    decreases m.len(),
{
    if m.len() == 0 {
        lemma_drop_invalid_empty();
    } else {
        lemma_drop_invalid_members(m.drop_last());
        assert(m.drop_last().push(m.last()) =~= m);
        lemma_drop_invalid_push(m.drop_last(), m.last());
        assert forall|k: int| 0 <= k < drop_invalid(m).len() implies m.contains(
            #[trigger] drop_invalid(m)[k],
        ) by {
            let dropped = drop_invalid(m.drop_last());
            if k < dropped.len() {
                assert(drop_invalid(m)[k] == dropped[k]);
                let j = choose|j: int|
                    0 <= j < m.drop_last().len() && m.drop_last()[j] == dropped[k];
                assert(m[j] == dropped[k]);
            } else {
                assert(drop_invalid(m)[k] == m.last());
                assert(m[m.len() - 1] == m.last());
            }
        }
    }
}

/// Applies `f` to each pointer of the pool in order and drops the results
/// that are invalidated.
fn apply_stepped<F: Fn(SafePointer) -> SafePointer>(pool: Vec<SafePointer>, f: F) -> (r: Vec<
    SafePointer,
>)
    requires
        forall|i: int| 0 <= i < pool@.len() ==> call_requires(f, (#[trigger] pool@[i],)),
    ensures
        exists|m: Seq<SafePointer>|
            m.len() == pool@.len() && (forall|i: int|
                0 <= i < pool@.len() ==> call_ensures(f, (pool@[i],), #[trigger] m[i])) && r@
                == drop_invalid(m),
{
    let ghost input = pool@;
    let mut pool = pool;
    let mut out: Vec<SafePointer> = Vec::new();
    let ghost mut m_seq: Seq<SafePointer> = Seq::empty();
    proof {
        lemma_drop_invalid_empty();
    }
    let n = pool.len();
    let mut i: usize = 0;
    while i < n
        invariant
            n == input.len(),
            pool@ == input.skip(i as int),
            i <= n,
            m_seq.len() == i,
            forall|j: int| 0 <= j < i ==> call_ensures(f, (input[j],), #[trigger] m_seq[j]),
            out@ == drop_invalid(m_seq),
            forall|j: int| i <= j < n ==> call_requires(f, (#[trigger] input[j],)),
        decreases n - i,
    {
        let p = pool.remove(0);
        proof {
            assert(p == input[i as int]);
            assert(input.skip(i as int).remove(0) =~= input.skip(i + 1));
        }
        let q = f(p);
        proof {
            lemma_drop_invalid_push(m_seq, q);
            m_seq = m_seq.push(q);
        }
        if !q.is_invalidated() {
            out.push(q);
        }
        i = i + 1;
    }
    out
}

/// Filtering distributes over extending a sequence by one element.
pub proof fn lemma_filter_snoc<A>(m: Seq<A>, x: A, pred: spec_fn(A) -> bool)
    ensures
        m.push(x).filter(pred) == if pred(x) {
            m.filter(pred).push(x)
        } else {
            m.filter(pred)
        },
{
    reveal_with_fuel(Seq::filter, 2);
    assert(m.push(x).drop_last() =~= m);
    assert(m.push(x).last() == x);
}

/// A pool obtained by dropping invalidated pointers from a pool of
/// well-formed pointers is well formed.
pub proof fn lemma_pool_wf_of_drop(m: Seq<SafePointer>, out: Seq<SafePointer>)
    requires
        out == drop_invalid(m),
        forall|i: int| 0 <= i < m.len() ==> (#[trigger] m[i]).wf(),
    ensures
        pool_wf(out),
{
    lemma_drop_invalid_members(m);
    assert forall|k: int| 0 <= k < out.len() implies (#[trigger] out[k]).wf() by {
        assert(m.contains(out[k]));
        let j = choose|j: int| 0 <= j < m.len() && m[j] == out[k];
        assert(m[j].wf());
    }
}

/// The addresses discovered by a reference walk fanned out over a pool:
/// each pointer is replaced by the references to its address, in pool
/// order.
pub open spec fn fanout_addrs(
    pool: Seq<SafePointer>,
    k: XrefKind,
    e: Endianness,
    c: SearchConstraints,
    il: usize,
) -> Seq<int> {
    concat_over(
        pool,
        |p: SafePointer| ref_addrs(k, p.snapshot().maps@, e, c, il, p.address),
    )
}

/// A subsequence of a pool of pointers yields a subsequence of its
/// addresses: the same index map witnesses both.
pub proof fn lemma_subsequence_addrs(b: Seq<SafePointer>, a: Seq<SafePointer>)
    requires
        is_subsequence(b, a),
    ensures
        is_subsequence(pointer_addrs(b), pointer_addrs(a)),
{
    let idx = choose|idx: Seq<int>|
        idx.len() == b.len() && (forall|k: int|
            0 <= k < b.len() ==> 0 <= #[trigger] idx[k] < a.len() && a[idx[k]] == b[k]) && (
        forall|k: int, l: int| 0 <= k < l < b.len() ==> #[trigger] idx[k] < #[trigger] idx[l]);
    assert(idx.len() == pointer_addrs(b).len());
    assert(forall|k: int|
        0 <= k < pointer_addrs(b).len() ==> 0 <= #[trigger] idx[k] < pointer_addrs(a).len()
            && pointer_addrs(a)[idx[k]] == pointer_addrs(b)[k]);
}

/// `k`-fold application of a pointer mutator: the possible results of
/// applying `f` exactly `k` times.
pub open spec fn rel_pow<F: Fn(SafePointer) -> SafePointer>(
    f: F,
    k: nat,
    x: SafePointer,
    y: SafePointer,
) -> bool
    decreases k,
{
    if k == 0 {
        y == x
    } else {
        exists|z: SafePointer|
            #[trigger] call_ensures(f, (x,), z) && rel_pow(f, (k - 1) as nat, z, y)
    }
}

/// Extending a `k`-fold application by one more call.
pub proof fn lemma_rel_pow_snoc<F: Fn(SafePointer) -> SafePointer>(
    f: F,
    k: nat,
    x: SafePointer,
    y: SafePointer,
    z: SafePointer,
)
    requires
        rel_pow(f, k, x, y),
        call_ensures(f, (y,), z),
    ensures
        rel_pow(f, (k + 1) as nat, x, z),
    decreases k,
{
    if k == 0 {
        assert(rel_pow(f, 0, z, z));
    } else {
        let w = choose|w: SafePointer|
            #[trigger] call_ensures(f, (x,), w) && rel_pow(f, (k - 1) as nat, w, y);
        lemma_rel_pow_snoc(f, (k - 1) as nat, w, y, z);
    }
}

/// The pool kept by a sequence of per-pointer decisions: element `i`
/// survives exactly when `ds[i]` is true.
pub open spec fn mask_filter(a: Seq<SafePointer>, ds: Seq<bool>) -> Seq<SafePointer>
    decreases a.len(),
{
    if a.len() == 0 {
        Seq::empty()
    } else {
        let rest = mask_filter(a.drop_last(), ds.drop_last());
        if ds[a.len() - 1] {
            rest.push(a.last())
        } else {
            rest
        }
    }
}

impl Session {
    /// If exactly one pointer is left, its address; otherwise the exact
    /// number of pointers left.
    pub fn get_pointer(self) -> (r: Result<usize, usize>)
        ensures
            self.pool@.len() == 1 ==> r == Ok::<usize, usize>(self.pool@[0].address),
            self.pool@.len() != 1 ==> r == Err::<usize, usize>(self.pool@.len() as usize),
    {
        if self.pool.len() == 1 {
            Ok(self.pool[0].get_address())
        } else {
            Err(self.pool.len())
        }
    }

    /// The addresses of the pointers left, in order.
    pub fn get_pool(self) -> (r: Vec<usize>)
        ensures
            r@.map_values(|x: usize| x as int) == pointer_addrs(self.pool@),
    {
        let n = self.pool.len();
        let mut r: Vec<usize> = Vec::new();
        let mut i: usize = 0;
        proof {
            assert(r@.map_values(|x: usize| x as int) =~= pointer_addrs(self.pool@.take(0)));
        }
        while i < n
            invariant
                n == self.pool@.len(),
                i <= n,
                r@.map_values(|x: usize| x as int) == pointer_addrs(self.pool@.take(i as int)),
            decreases n - i,
        {
            let a = self.pool[i].get_address();
            r.push(a);
            proof {
                assert(self.pool@.take(i + 1) =~= self.pool@.take(i as int).push(
                    self.pool@[i as int],
                ));
                assert(r@.map_values(|x: usize| x as int) =~= pointer_addrs(
                    self.pool@.take(i as int),
                ).push(self.pool@[i as int].address as int));
                assert(pointer_addrs(self.pool@.take(i + 1)) =~= pointer_addrs(
                    self.pool@.take(i as int),
                ).push(self.pool@[i as int].address as int));
            }
            i = i + 1;
        }
        proof {
            assert(self.pool@.take(n as int) =~= self.pool@);
        }
        r
    }

    /// Advances every pointer by `operand`; pointers that overflow are
    /// dropped.
    pub fn step_forwards(self, operand: usize) -> (r: Session)
        requires
            pool_wf(self.pool@),
        ensures
            stepped_add(self.pool@, r.pool@, operand),
            pool_wf(r.pool@),
    {
        let ghost a = self.pool@;
        let f = |p: SafePointer| -> (q: SafePointer)
            ensures
                q == spec_add(p, operand),
            {
                let mut p2 = p;
                p2.add(operand);
                p2
            };
        let out = apply_stepped(self.pool, f);
        proof {
            let m = choose|m: Seq<SafePointer>|
                #![trigger drop_invalid(m)]
                m.len() == a.len() && (forall|i: int|
                    0 <= i < a.len() ==> call_ensures(f, (a[i],), #[trigger] m[i])) && out@
                    == drop_invalid(m);
            assert(forall|i: int|
                0 <= i < a.len() ==> #[trigger] m[i] == spec_add(a[i], operand));
            lemma_pool_wf_of_drop(m, out@);
        }
        Session { pool: out }
    }

    /// Moves every pointer back by `operand`; pointers that underflow are
    /// dropped.
    pub fn step_backwards(self, operand: usize) -> (r: Session)
        requires
            pool_wf(self.pool@),
        ensures
            stepped_sub(self.pool@, r.pool@, operand),
            pool_wf(r.pool@),
    {
        let ghost a = self.pool@;
        let f = |p: SafePointer| -> (q: SafePointer)
            ensures
                q == spec_sub(p, operand),
            {
                let mut p2 = p;
                p2.sub(operand);
                p2
            };
        let out = apply_stepped(self.pool, f);
        proof {
            let m = choose|m: Seq<SafePointer>|
                #![trigger drop_invalid(m)]
                m.len() == a.len() && (forall|i: int|
                    0 <= i < a.len() ==> call_ensures(f, (a[i],), #[trigger] m[i])) && out@
                    == drop_invalid(m);
            assert(forall|i: int|
                0 <= i < a.len() ==> #[trigger] m[i] == spec_sub(a[i], operand));
            lemma_pool_wf_of_drop(m, out@);
        }
        Session { pool: out }
    }

    /// Dereferences every pointer; pointers whose read fails are dropped.
    pub fn dereference(self, e: Endianness) -> (r: Session)
        requires
            pool_wf(self.pool@),
        ensures
            stepped_deref(self.pool@, r.pool@, e),
            pool_wf(r.pool@),
    {
        let ghost a = self.pool@;
        let f = |p: SafePointer| -> (q: SafePointer)
            requires
                p.wf(),
            ensures
                deref_rel(p, q, e),
            {
                let mut p2 = p;
                p2.dereference(e);
                p2
            };
        let out = apply_stepped(self.pool, f);
        proof {
            let m = choose|m: Seq<SafePointer>|
                #![trigger drop_invalid(m)]
                m.len() == a.len() && (forall|i: int|
                    0 <= i < a.len() ==> call_ensures(f, (a[i],), #[trigger] m[i])) && out@
                    == drop_invalid(m);
            assert(forall|i: int| 0 <= i < a.len() ==> #[trigger] deref_rel(a[i], m[i], e));
            lemma_pool_wf_of_drop(m, out@);
        }
        Session { pool: out }
    }

    /// Converts every pointer's relative displacement to an absolute
    /// address; pointers whose read fails are dropped.
    pub fn relative_to_absolute(self, e: Endianness) -> (r: Session)
        requires
            pool_wf(self.pool@),
        ensures
            stepped_rel_to_abs(self.pool@, r.pool@, e),
            pool_wf(r.pool@),
    {
        let ghost a = self.pool@;
        let f = |p: SafePointer| -> (q: SafePointer)
            requires
                p.wf(),
            ensures
                rel_to_abs_rel(p, q, e),
            {
                let mut p2 = p;
                p2.relative_to_absolute(e);
                p2
            };
        let out = apply_stepped(self.pool, f);
        proof {
            let m = choose|m: Seq<SafePointer>|
                #![trigger drop_invalid(m)]
                m.len() == a.len() && (forall|i: int|
                    0 <= i < a.len() ==> call_ensures(f, (a[i],), #[trigger] m[i])) && out@
                    == drop_invalid(m);
            assert(forall|i: int|
                0 <= i < a.len() ==> #[trigger] rel_to_abs_rel(a[i], m[i], e));
            lemma_pool_wf_of_drop(m, out@);
        }
        Session { pool: out }
    }

    /// Advances every pointer past the instruction at it; pointers where
    /// no instruction decodes are dropped.
    pub fn next_instruction(self, isa: Isa) -> (r: Session)
        requires
            pool_wf(self.pool@),
        ensures
            stepped_next_instruction(self.pool@, r.pool@, isa),
            pool_wf(r.pool@),
    {
        let ghost a = self.pool@;
        let f = |p: SafePointer| -> (q: SafePointer)
            requires
                p.wf(),
            ensures
                next_instruction_rel(p, q, isa),
            {
                let mut p2 = p;
                p2.next_instruction(isa);
                p2
            };
        let out = apply_stepped(self.pool, f);
        proof {
            let m = choose|m: Seq<SafePointer>|
                #![trigger drop_invalid(m)]
                m.len() == a.len() && (forall|i: int|
                    0 <= i < a.len() ==> call_ensures(f, (a[i],), #[trigger] m[i])) && out@
                    == drop_invalid(m);
            assert(forall|i: int|
                0 <= i < a.len() ==> #[trigger] next_instruction_rel(a[i], m[i], isa));
            lemma_pool_wf_of_drop(m, out@);
        }
        Session { pool: out }
    }

    /// Moves every pointer to the previous occurrence of the signature;
    /// pointers without one are dropped.
    pub fn prev_occurrence(self, signature: Signature, constraints: SearchConstraints) -> (r:
        Session)
        requires
            pool_wf(self.pool@),
        ensures
            stepped_prev_occurrence(self.pool@, r.pool@, signature.elements@, constraints),
            pool_wf(r.pool@),
    {
        let ghost a = self.pool@;
        let sig_ref = &signature;
        let c_ref = &constraints;
        let f = |p: SafePointer| -> (q: SafePointer)
            requires
                p.wf(),
            ensures
                prev_occurrence_rel(p, q, sig_ref.elements@, *c_ref),
            {
                let mut p2 = p;
                p2.prev_occurrence(sig_ref, c_ref);
                p2
            };
        let out = apply_stepped(self.pool, f);
        proof {
            let m = choose|m: Seq<SafePointer>|
                #![trigger drop_invalid(m)]
                m.len() == a.len() && (forall|i: int|
                    0 <= i < a.len() ==> call_ensures(f, (a[i],), #[trigger] m[i])) && out@
                    == drop_invalid(m);
            assert(forall|i: int|
                0 <= i < a.len() ==> #[trigger] prev_occurrence_rel(
                    a[i],
                    m[i],
                    signature.elements@,
                    constraints,
                ));
            lemma_pool_wf_of_drop(m, out@);
        }
        Session { pool: out }
    }

    /// Moves every pointer to the next occurrence of the signature;
    /// pointers without one are dropped.
    pub fn next_occurrence(self, signature: Signature, constraints: SearchConstraints) -> (r:
        Session)
        requires
            pool_wf(self.pool@),
        ensures
            stepped_next_occurrence(self.pool@, r.pool@, signature.elements@, constraints),
            pool_wf(r.pool@),
    {
        let ghost a = self.pool@;
        let sig_ref = &signature;
        let c_ref = &constraints;
        let f = |p: SafePointer| -> (q: SafePointer)
            requires
                p.wf(),
            ensures
                next_occurrence_rel(p, q, sig_ref.elements@, *c_ref),
            {
                let mut p2 = p;
                p2.next_occurrence(sig_ref, c_ref);
                p2
            };
        let out = apply_stepped(self.pool, f);
        proof {
            let m = choose|m: Seq<SafePointer>|
                #![trigger drop_invalid(m)]
                m.len() == a.len() && (forall|i: int|
                    0 <= i < a.len() ==> call_ensures(f, (a[i],), #[trigger] m[i])) && out@
                    == drop_invalid(m);
            assert(forall|i: int|
                0 <= i < a.len() ==> #[trigger] next_occurrence_rel(
                    a[i],
                    m[i],
                    signature.elements@,
                    constraints,
                ));
            lemma_pool_wf_of_drop(m, out@);
        }
        Session { pool: out }
    }

    /// Replaces each pointer by the references of the wanted kind to its
    /// address.
    fn fanout_references(
        self,
        k: XrefKind,
        e: Endianness,
        il: usize,
        constraints: &SearchConstraints,
    ) -> (r: Session)
        requires
            pool_wf(self.pool@),
        ensures
            pointer_addrs(r.pool@) == fanout_addrs(self.pool@, k, e, *constraints, il),
            pool_wf(r.pool@),
    {
        let ghost input = self.pool@;
        let ghost g = |p: SafePointer| ref_addrs(
            k,
            p.snapshot().maps@,
            e,
            *constraints,
            il,
            p.address,
        );
        let mut pool = self.pool;
        let mut out: Vec<SafePointer> = Vec::new();
        let n = pool.len();
        let mut i: usize = 0;
        proof {
            assert(input.take(0) =~= Seq::<SafePointer>::empty());
            assert(pointer_addrs(out@) =~= concat_over(input.take(0), g));
        }
        while i < n
            invariant
                n == input.len(),
                pool@ == input.skip(i as int),
                i <= n,
                pool_wf(input),
                pointer_addrs(out@) == concat_over(input.take(i as int), g),
                pool_wf(out@),
                g == (|p: SafePointer| ref_addrs(
                    k,
                    p.snapshot().maps@,
                    e,
                    *constraints,
                    il,
                    p.address,
                )),
            decreases n - i,
        {
            let p = pool.remove(0);
            proof {
                assert(p == input[i as int]);
                assert(input.skip(i as int).remove(0) =~= input.skip(i + 1));
                lemma_concat_over_snoc(input.take(i + 1), g);
                assert(input.take(i + 1).drop_last() =~= input.take(i as int));
                assert(input.take(i + 1).last() == input[i as int]);
            }
            let mut refs = p.find_references_impl(k, e, il, constraints);
            let ghost refs_init = refs@;
            let ghost before = out@;
            proof {
                assert forall|t: int| 0 <= t < refs_init.len() implies (
                #[trigger] refs_init[t]).wf() by {
                    assert(refs_init[t].maps == p.maps);
                }
            }
            let m = refs.len();
            let mut j: usize = 0;
            proof {
                assert(refs_init.take(0) =~= Seq::<SafePointer>::empty());
                assert(before + refs_init.take(0) =~= before);
            }
            while j < m
                invariant
                    m == refs_init.len(),
                    refs@ == refs_init.skip(j as int),
                    j <= m,
                    out@ == before + refs_init.take(j as int),
                    pool_wf(refs_init),
                    pool_wf(before),
                decreases m - j,
            {
                let q = refs.remove(0);
                proof {
                    assert(q == refs_init[j as int]);
                    assert(refs_init.skip(j as int).remove(0) =~= refs_init.skip(j + 1));
                }
                out.push(q);
                proof {
                    assert(before + refs_init.take(j + 1) =~= (before + refs_init.take(
                        j as int,
                    )).push(refs_init[j as int]));
                }
                j = j + 1;
            }
            proof {
                assert(refs_init.take(m as int) =~= refs_init);
                assert(pointer_addrs(before + refs_init) =~= pointer_addrs(before)
                    + pointer_addrs(refs_init));
                assert(pointer_addrs(refs_init) == g(input[i as int]));
                assert forall|t: int| 0 <= t < out@.len() implies (#[trigger] out@[t]).wf() by {
                    if t < before.len() {
                        assert(out@[t] == before[t]);
                    } else {
                        assert(out@[t] == refs_init[t - before.len()]);
                    }
                }
            }
            i = i + 1;
        }
        proof {
            assert(input.take(n as int) =~= input);
        }
        Session { pool: out }
    }

    /// Replaces each pointer by every reference of either kind to its
    /// address.
    pub fn find_all_references(
        self,
        instruction_length: usize,
        e: Endianness,
        constraints: SearchConstraints,
    ) -> (r: Session)
        requires
            pool_wf(self.pool@),
        ensures
            pointer_addrs(r.pool@) == fanout_addrs(
                self.pool@,
                XrefKind::Combined,
                e,
                constraints,
                instruction_length,
            ),
            pool_wf(r.pool@),
    {
        self.fanout_references(XrefKind::Combined, e, instruction_length, &constraints)
    }

    /// Replaces each pointer by every relative reference to its address.
    pub fn find_relative_references(
        self,
        instruction_length: usize,
        e: Endianness,
        constraints: SearchConstraints,
    ) -> (r: Session)
        requires
            pool_wf(self.pool@),
        ensures
            pointer_addrs(r.pool@) == fanout_addrs(
                self.pool@,
                XrefKind::Relative,
                e,
                constraints,
                instruction_length,
            ),
            pool_wf(r.pool@),
    {
        self.fanout_references(XrefKind::Relative, e, instruction_length, &constraints)
    }

    /// Replaces each pointer by every absolute reference to its address.
    pub fn find_absolute_references(self, e: Endianness, constraints: SearchConstraints) -> (r:
        Session)
        requires
            pool_wf(self.pool@),
        ensures
            pointer_addrs(r.pool@) == fanout_addrs(
                self.pool@,
                XrefKind::Absolute,
                e,
                constraints,
                0,
            ),
            pool_wf(r.pool@),
    {
        self.fanout_references(XrefKind::Absolute, e, 0, &constraints)
    }

    /// Keeps only the pointers whose bytes currently match the signature.
    pub fn signature_filter(self, signature: Signature) -> (r: Session)
        requires
            pool_wf(self.pool@),
        ensures
            sig_filtered(self.pool@, r.pool@, signature.elements@),
            pool_wf(r.pool@),
    {
        let ghost input = self.pool@;
        let ghost pred = |p: SafePointer| spec_does_match(p, signature.elements@);
        let mut pool = self.pool;
        let mut out: Vec<SafePointer> = Vec::new();
        let n = pool.len();
        let mut i: usize = 0;
        proof {
            reveal_with_fuel(Seq::<SafePointer>::filter, 1);
            assert(input.take(0) =~= Seq::<SafePointer>::empty());
            assert(out@ =~= input.take(0).filter(pred));
        }
        while i < n
            invariant
                n == input.len(),
                pool@ == input.skip(i as int),
                i <= n,
                pool_wf(input),
                out@ == input.take(i as int).filter(pred),
                pool_wf(out@),
                pred == (|p: SafePointer| spec_does_match(p, signature.elements@)),
            decreases n - i,
        {
            let p = pool.remove(0);
            proof {
                assert(p == input[i as int]);
                assert(input.skip(i as int).remove(0) =~= input.skip(i + 1));
                assert(input.take(i + 1) =~= input.take(i as int).push(input[i as int]));
                lemma_filter_snoc(input.take(i as int), input[i as int], pred);
            }
            let keep = p.does_match(&signature);
            if keep {
                out.push(p);
            }
            i = i + 1;
        }
        proof {
            assert(input.take(n as int) =~= input);
        }
        Session { pool: out }
    }

    /// Keeps only the pointers whose containing region's name has the
    /// given basename.
    pub fn filter_module(self, module_name: &str) -> (r: Session)
        requires
            pool_wf(self.pool@),
        ensures
            module_filtered(self.pool@, r.pool@, module_name.spec_bytes()),
            pool_wf(r.pool@),
    {
        let ghost input = self.pool@;
        let ghost pred = |p: SafePointer| module_matches(p, module_name.spec_bytes());
        let target = module_name.as_bytes();
        let mut pool = self.pool;
        let mut out: Vec<SafePointer> = Vec::new();
        let n = pool.len();
        let mut i: usize = 0;
        proof {
            reveal_with_fuel(Seq::<SafePointer>::filter, 1);
            assert(input.take(0) =~= Seq::<SafePointer>::empty());
            assert(out@ =~= input.take(0).filter(pred));
        }
        while i < n
            invariant
                n == input.len(),
                pool@ == input.skip(i as int),
                i <= n,
                pool_wf(input),
                target@ == module_name.spec_bytes(),
                out@ == input.take(i as int).filter(pred),
                pool_wf(out@),
                pred == (|p: SafePointer| module_matches(p, module_name.spec_bytes())),
            decreases n - i,
        {
            let p = pool.remove(0);
            proof {
                assert(p == input[i as int]);
                assert(input.skip(i as int).remove(0) =~= input.skip(i + 1));
                assert(input.take(i + 1) =~= input.take(i as int).push(input[i as int]));
                lemma_filter_snoc(input.take(i as int), input[i as int], pred);
            }
            let keep = match p.get_module_name() {
                Some(name) => crate::cached_map::name_matches_exec(name, target),
                None => false,
            };
            if keep {
                out.push(p);
            }
            i = i + 1;
        }
        proof {
            assert(input.take(n as int) =~= input);
        }
        Session { pool: out }
    }

    /// Keeps only the pointers the given predicate accepts. The result is
    /// a subsequence of the pool, in order.
    pub fn filter<F: Fn(&SafePointer) -> bool>(self, f: F) -> (r: Session)
        requires
            forall|p: SafePointer| call_requires(f, (&p,)),
        ensures
            is_subsequence(r.pool@, self.pool@),
            exists|ds: Seq<bool>|
                #![trigger mask_filter(self.pool@, ds)]
                ds.len() == self.pool@.len() && (forall|i: int|
                    0 <= i < self.pool@.len() ==> call_ensures(
                        f,
                        (&self.pool@[i],),
                        #[trigger] ds[i],
                    )) && r.pool@ == mask_filter(self.pool@, ds),
            pool_wf(self.pool@) ==> pool_wf(r.pool@),
    {
        let ghost input = self.pool@;
        let mut pool = self.pool;
        let mut out: Vec<SafePointer> = Vec::new();
        let ghost mut idx: Seq<int> = Seq::empty();
        let ghost mut ds: Seq<bool> = Seq::empty();
        let n = pool.len();
        let mut i: usize = 0;
        while i < n
            invariant
                n == input.len(),
                pool@ == input.skip(i as int),
                i <= n,
                forall|p: SafePointer| call_requires(f, (&p,)),
                idx.len() == out@.len(),
                ds.len() == i,
                forall|t: int|
                    0 <= t < i ==> call_ensures(f, (&input[t],), #[trigger] ds[t]),
                out@ == mask_filter(input.take(i as int), ds),
                forall|t: int|
                    0 <= t < out@.len() ==> 0 <= #[trigger] idx[t] < i && input[idx[t]]
                        == out@[t],
                forall|t: int, l: int| 0 <= t < l < out@.len() ==> #[trigger] idx[t]
                    < #[trigger] idx[l],
            decreases n - i,
        {
            let p = pool.remove(0);
            proof {
                assert(p == input[i as int]);
                assert(input.skip(i as int).remove(0) =~= input.skip(i + 1));
            }
            let keep = f(&p);
            proof {
                let old_ds = ds;
                ds = ds.push(keep);
                assert(ds.drop_last() =~= old_ds);
                assert(input.take(i + 1).drop_last() =~= input.take(i as int));
                assert(input.take(i + 1).last() == input[i as int]);
                assert(mask_filter(input.take(i + 1), ds) == if ds[i as int] {
                    mask_filter(input.take(i as int), old_ds).push(input[i as int])
                } else {
                    mask_filter(input.take(i as int), old_ds)
                });
            }
            if keep {
                out.push(p);
                proof {
                    idx = idx.push(i as int);
                }
            }
            i = i + 1;
        }
        proof {
            assert(input.take(n as int) =~= input);
            assert forall|t: int| 0 <= t < out@.len() implies 0 <= #[trigger] idx[t]
                < input.len() && input[idx[t]] == out@[t] by {}
            if pool_wf(input) {
                assert forall|t: int| 0 <= t < out@.len() implies (#[trigger] out@[t]).wf() by {
                    assert(input[idx[t]] == out@[t]);
                }
            }
        }
        Session { pool: out }
    }

    /// Applies the given mutator to each pointer and drops the results it
    /// invalidated.
    pub fn mutate<F: Fn(SafePointer) -> SafePointer>(self, f: F) -> (r: Session)
        requires
            forall|i: int| 0 <= i < self.pool@.len() ==> call_requires(f, (#[trigger] self.pool@[i],)),
        ensures
            stepped_mutate(f, self.pool@, r.pool@),
    {
        let ghost a = self.pool@;
        let out = apply_stepped(self.pool, f);
        proof {
            let m = choose|m: Seq<SafePointer>|
                #![trigger drop_invalid(m)]
                m.len() == a.len() && (forall|i: int|
                    0 <= i < a.len() ==> call_ensures(f, (a[i],), #[trigger] m[i])) && out@
                    == drop_invalid(m);
        }
        Session { pool: out }
    }

    /// Applies the given mapper to each pointer, keeping every result.
    pub fn map<F: Fn(SafePointer) -> SafePointer>(self, f: F) -> (r: Session)
        requires
            forall|i: int| 0 <= i < self.pool@.len() ==> call_requires(f, (#[trigger] self.pool@[i],)),
        ensures
            r.pool@.len() == self.pool@.len(),
            forall|i: int|
                0 <= i < self.pool@.len() ==> call_ensures(
                    f,
                    (self.pool@[i],),
                    #[trigger] r.pool@[i],
                ),
    {
        let ghost input = self.pool@;
        let mut pool = self.pool;
        let mut out: Vec<SafePointer> = Vec::new();
        let n = pool.len();
        let mut i: usize = 0;
        while i < n
            invariant
                n == input.len(),
                pool@ == input.skip(i as int),
                i <= n,
                out@.len() == i,
                forall|j: int|
                    0 <= j < i ==> call_ensures(f, (input[j],), #[trigger] out@[j]),
                forall|j: int| i <= j < n ==> call_requires(f, (#[trigger] input[j],)),
            decreases n - i,
        {
            let p = pool.remove(0);
            proof {
                assert(p == input[i as int]);
                assert(input.skip(i as int).remove(0) =~= input.skip(i + 1));
            }
            let q = f(p);
            out.push(q);
            i = i + 1;
        }
        Session { pool: out }
    }

    /// Runs the given function on each pointer, leaving the pool as it
    /// was.
    pub fn inspect<F: Fn(&SafePointer)>(self, f: F) -> (r: Session)
        requires
            forall|p: SafePointer| call_requires(f, (&p,)),
        ensures
            r.pool@ == self.pool@,
    {
        let ghost input = self.pool@;
        let mut pool = self.pool;
        let mut out: Vec<SafePointer> = Vec::new();
        let n = pool.len();
        let mut i: usize = 0;
        while i < n
            invariant
                n == input.len(),
                pool@ == input.skip(i as int),
                i <= n,
                out@ == input.take(i as int),
                forall|p: SafePointer| call_requires(f, (&p,)),
            decreases n - i,
        {
            let p = pool.remove(0);
            proof {
                assert(p == input[i as int]);
                assert(input.skip(i as int).remove(0) =~= input.skip(i + 1));
            }
            f(&p);
            out.push(p);
            proof {
                assert(input.take(i + 1) =~= input.take(i as int).push(input[i as int]));
            }
            i = i + 1;
        }
        proof {
            assert(input.take(n as int) =~= input);
        }
        Session { pool: out }
    }

    /// Applies the given mutator exactly `iterations` times to each
    /// pointer, then drops the invalidated results.
    pub fn repeat_n<F: Fn(SafePointer) -> SafePointer>(self, iterations: usize, f: F) -> (r:
        Session)
        requires
            forall|p: SafePointer| call_requires(f, (p,)),
        ensures
            stepped_repeat(f, iterations as nat, self.pool@, r.pool@),
    {
        let ghost input = self.pool@;
        let mut pool = self.pool;
        let mut out: Vec<SafePointer> = Vec::new();
        let ghost mut m_seq: Seq<SafePointer> = Seq::empty();
        proof {
            lemma_drop_invalid_empty();
        }
        let n = pool.len();
        let mut i: usize = 0;
        while i < n
            invariant
                n == input.len(),
                pool@ == input.skip(i as int),
                i <= n,
                m_seq.len() == i,
                forall|j: int|
                    0 <= j < i ==> rel_pow(f, iterations as nat, input[j], #[trigger] m_seq[j]),
                out@ == drop_invalid(m_seq),
                forall|p: SafePointer| call_requires(f, (p,)),
            decreases n - i,
        {
            let p = pool.remove(0);
            proof {
                assert(p == input[i as int]);
                assert(input.skip(i as int).remove(0) =~= input.skip(i + 1));
            }
            let ghost p0 = p;
            let mut cur = p;
            let mut t: usize = 0;
            while t < iterations
                invariant
                    t <= iterations,
                    rel_pow(f, t as nat, p0, cur),
                    forall|p2: SafePointer| call_requires(f, (p2,)),
                decreases iterations - t,
            {
                let ghost prev = cur;
                let next = f(cur);
                proof {
                    lemma_rel_pow_snoc(f, t as nat, p0, prev, next);
                }
                cur = next;
                t = t + 1;
            }
            proof {
                lemma_drop_invalid_push(m_seq, cur);
                m_seq = m_seq.push(cur);
            }
            if !cur.is_invalidated() {
                out.push(cur);
            }
            i = i + 1;
        }
        Session { pool: out }
    }

}

/// Whether `b` keeps exactly the pointers of `a` whose bytes match the
/// pattern, in order.
pub open spec fn sig_filtered(
    a: Seq<SafePointer>,
    b: Seq<SafePointer>,
    elems: Seq<crate::sigscan::SigElem>,
) -> bool {
    b == a.filter(|p: SafePointer| spec_does_match(p, elems))
}

/// Whether `b` keeps exactly the pointers of `a` whose containing
/// region's name has the given basename, in order.
pub open spec fn module_filtered(
    a: Seq<SafePointer>,
    b: Seq<SafePointer>,
    target: Seq<u8>,
) -> bool {
    b == a.filter(|p: SafePointer| module_matches(p, target))
}

/// Whether the region containing the pointer's address has a name whose
/// basename equals `target`.
pub open spec fn module_matches(p: SafePointer, target: Seq<u8>) -> bool {
    p.snapshot().has_region(p.address) && crate::cached_map::name_matches(
        p.snapshot().region_at(p.address).name,
        target,
    )
}

} // verus!
