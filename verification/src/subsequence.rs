//! Order-preserving containment of one sequence in another: the output of a
//! stable filter is always a subsequence of its input.

use vstd::prelude::*;

verus! {

/// Whether `a` can be obtained from `b` by deleting elements without
/// reordering the ones that remain.
pub open spec fn is_subsequence_of<T>(a: Seq<T>, b: Seq<T>) -> bool
    decreases a.len() + b.len(),
{
    if a.len() == 0 {
        true
    } else if b.len() == 0 {
        false
    } else if a[0] == b[0] {
        is_subsequence_of(a.skip(1), b.skip(1))
    } else {
        is_subsequence_of(a, b.skip(1))
    }
}

/// A subsequence of `b` is still a subsequence after one element is put in
/// front of `b`.
pub proof fn lemma_subsequence_cons<T>(a: Seq<T>, b: Seq<T>, x: T)
    requires
        is_subsequence_of(a, b),
    ensures
        is_subsequence_of(a, seq![x] + b),
    decreases b.len(), 1int,
{
    let c = seq![x] + b;
    assert(c.len() == 1 + b.len());
    if a.len() == 0 {
    } else {
        assert(c.skip(1) =~= b);
        if a[0] == c[0] {
            lemma_subsequence_drop_head(a, b);
            assert(is_subsequence_of(a.skip(1), c.skip(1)));
        } else {
            assert(is_subsequence_of(a, c.skip(1)));
        }
    }
}

/// Dropping the head of a subsequence keeps it a subsequence.
pub proof fn lemma_subsequence_drop_head<T>(a: Seq<T>, b: Seq<T>)
    requires
        is_subsequence_of(a, b),
        a.len() > 0,
    ensures
        is_subsequence_of(a.skip(1), b),
    decreases b.len(), 0int,
{
    assert(b.len() > 0);
    if a[0] == b[0] {
        lemma_subsequence_cons(a.skip(1), b.skip(1), b[0]);
        assert(seq![b[0]] + b.skip(1) =~= b);
    } else {
        lemma_subsequence_drop_head(a, b.skip(1));
        lemma_subsequence_cons(a.skip(1), b.skip(1), b[0]);
        assert(seq![b[0]] + b.skip(1) =~= b);
    }
}

} // verus!
