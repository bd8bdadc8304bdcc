use vstd::prelude::*;

verus! {

/// Number of elements of `s` that satisfy `p`.
pub open spec fn count<A>(s: Seq<A>, p: spec_fn(A) -> bool) -> nat
    decreases s.len(),
{
    if s.len() == 0 {
        0
    } else {
        count(s.drop_last(), p) + if p(s.last()) { 1nat } else { 0nat }
    }
}

pub proof fn lemma_count_le<A>(s: Seq<A>, p: spec_fn(A) -> bool)
    ensures
        count(s, p) <= s.len(),
    decreases s.len(),
{
    if s.len() > 0 {
        lemma_count_le(s.drop_last(), p);
    }
}

pub proof fn lemma_count_push<A>(s: Seq<A>, v: A, p: spec_fn(A) -> bool)
    ensures
        count(s.push(v), p) == count(s, p) + if p(v) { 1nat } else { 0nat },
{
    assert(s.push(v).drop_last() =~= s);
}

/// Replacing one element changes the count by what the old and new element contribute.
pub proof fn lemma_count_update<A>(s: Seq<A>, i: int, v: A, p: spec_fn(A) -> bool)
    requires
        0 <= i < s.len(),
    ensures
        count(s.update(i, v), p) + (if p(s[i]) { 1nat } else { 0nat }) == count(s, p) + (if p(v) {
            1nat
        } else {
            0nat
        }),
    decreases s.len(),
{
    if i == s.len() - 1 {
        assert(s.update(i, v).drop_last() =~= s.drop_last());
    } else {
        lemma_count_update(s.drop_last(), i, v, p);
        assert(s.update(i, v).drop_last() =~= s.drop_last().update(i, v));
    }
}

/// Where every element satisfies exactly one of two predicates, their counts
/// add up to the length.
pub proof fn lemma_count_partition<A>(s: Seq<A>, p: spec_fn(A) -> bool, q: spec_fn(A) -> bool)
    requires
        forall|i: int| 0 <= i < s.len() ==> (p(#[trigger] s[i]) != q(s[i])),
    ensures
        count(s, p) + count(s, q) == s.len(),
    decreases s.len(),
{
    if s.len() > 0 {
        lemma_count_partition(s.drop_last(), p, q);
    }
}

} // verus!
