//! Counting the indices of a range that satisfy a predicate, with the
//! arithmetic facts the sorting proofs rely on.
use vstd::prelude::*;

verus! {

/// Number of indices `k` with `lo <= k < hi` for which `f(k)` holds.
pub open spec fn count_idx(lo: int, hi: int, f: spec_fn(int) -> bool) -> nat
    decreases hi - lo,
{
    if hi <= lo {
        0
    } else {
        count_idx(lo, hi - 1, f) + if f(hi - 1) {
            1nat
        } else {
            0nat
        }
    }
}

pub proof fn lemma_count_le_len(lo: int, hi: int, f: spec_fn(int) -> bool)
    requires
        lo <= hi,
    ensures
        count_idx(lo, hi, f) <= hi - lo,
    decreases hi - lo,
{
    if hi > lo {
        lemma_count_le_len(lo, hi - 1, f);
    }
}

pub proof fn lemma_count_ext(lo: int, hi: int, f: spec_fn(int) -> bool, g: spec_fn(int) -> bool)
    requires
        forall|k: int| #![trigger f(k)] lo <= k < hi ==> f(k) == g(k),
    ensures
        count_idx(lo, hi, f) == count_idx(lo, hi, g),
    decreases hi - lo,
{
    if hi > lo {
        lemma_count_ext(lo, hi - 1, f, g);
    }
}

pub proof fn lemma_count_split(lo: int, m: int, hi: int, f: spec_fn(int) -> bool)
    requires
        lo <= m <= hi,
    ensures
        count_idx(lo, hi, f) == count_idx(lo, m, f) + count_idx(m, hi, f),
    decreases hi - m,
{
    if hi > m {
        lemma_count_split(lo, m, hi - 1, f);
    }
}

pub proof fn lemma_count_single(i: int, f: spec_fn(int) -> bool)
    ensures
        count_idx(i, i + 1, f) == if f(i) {
            1nat
        } else {
            0nat
        },
{
    assert(count_idx(i, i, f) == 0);
}

pub proof fn lemma_count_all(lo: int, hi: int, f: spec_fn(int) -> bool)
    requires
        lo <= hi,
        forall|k: int| #![trigger f(k)] lo <= k < hi ==> f(k),
    ensures
        count_idx(lo, hi, f) == hi - lo,
    decreases hi - lo,
{
    if hi > lo {
        lemma_count_all(lo, hi - 1, f);
    }
}

pub proof fn lemma_count_none(lo: int, hi: int, f: spec_fn(int) -> bool)
    requires
        forall|k: int| #![trigger f(k)] lo <= k < hi ==> !f(k),
    ensures
        count_idx(lo, hi, f) == 0,
    decreases hi - lo,
{
    if hi > lo {
        lemma_count_none(lo, hi - 1, f);
    }
}

pub proof fn lemma_count_zero(lo: int, hi: int, f: spec_fn(int) -> bool)
    requires
        count_idx(lo, hi, f) == 0,
    ensures
        forall|k: int| #![trigger f(k)] lo <= k < hi ==> !f(k),
    decreases hi - lo,
{
    if hi > lo {
        lemma_count_zero(lo, hi - 1, f);
    }
}

pub proof fn lemma_count_mono(lo: int, hi: int, f: spec_fn(int) -> bool, g: spec_fn(int) -> bool)
    requires
        forall|k: int| #![trigger f(k)] lo <= k < hi && f(k) ==> g(k),
    ensures
        count_idx(lo, hi, f) <= count_idx(lo, hi, g),
    decreases hi - lo,
{
    if hi > lo {
        lemma_count_mono(lo, hi - 1, f, g);
    }
}

/// Counting the union of two disjoint predicates adds their counts.
pub proof fn lemma_count_disjoint(
    lo: int,
    hi: int,
    f: spec_fn(int) -> bool,
    g: spec_fn(int) -> bool,
    h: spec_fn(int) -> bool,
)
    requires
        forall|k: int| #![trigger f(k)] lo <= k < hi ==> !(f(k) && g(k)),
        forall|k: int| #![trigger h(k)] lo <= k < hi ==> (h(k) <==> f(k) || g(k)),
    ensures
        count_idx(lo, hi, h) == count_idx(lo, hi, f) + count_idx(lo, hi, g),
    decreases hi - lo,
{
    if hi > lo {
        lemma_count_disjoint(lo, hi - 1, f, g, h);
    }
}

/// Two predicates that differ at one index only have counts that differ
/// by what that index contributes.
pub proof fn lemma_count_point(lo: int, hi: int, i: int, f: spec_fn(int) -> bool, g: spec_fn(int) -> bool)
    requires
        lo <= i < hi,
        forall|k: int| #![trigger f(k)] lo <= k < hi && k != i ==> f(k) == g(k),
    ensures
        count_idx(lo, hi, f) + (if g(i) {
            1int
        } else {
            0int
        }) == count_idx(lo, hi, g) + (if f(i) {
            1int
        } else {
            0int
        }),
{
    lemma_count_split(lo, i, hi, f);
    lemma_count_split(lo, i, hi, g);
    lemma_count_split(i, i + 1, hi, f);
    lemma_count_split(i, i + 1, hi, g);
    lemma_count_single(i, f);
    lemma_count_single(i, g);
    lemma_count_ext(lo, i, f, g);
    lemma_count_ext(i + 1, hi, f, g);
}

/// Counting `g` over `[lo, hi)` is counting `f` one index further on.
pub proof fn lemma_count_shift(lo: int, hi: int, f: spec_fn(int) -> bool, g: spec_fn(int) -> bool)
    requires
        forall|k: int| #![trigger g(k)] lo <= k < hi ==> g(k) == f(k + 1),
    ensures
        count_idx(lo, hi, g) == count_idx(lo + 1, hi + 1, f),
    decreases hi - lo,
{
    if hi > lo {
        lemma_count_shift(lo, hi - 1, f, g);
    }
}

/// Exchanging the values of two indices leaves the count unchanged.
pub proof fn lemma_count_swap(
    lo: int,
    hi: int,
    i: int,
    j: int,
    f: spec_fn(int) -> bool,
    g: spec_fn(int) -> bool,
)
    requires
        lo <= i < hi,
        lo <= j < hi,
        f(i) == g(j),
        f(j) == g(i),
        forall|k: int| #![trigger f(k)] lo <= k < hi && k != i && k != j ==> f(k) == g(k),
    ensures
        count_idx(lo, hi, f) == count_idx(lo, hi, g),
{
    if i == j {
        lemma_count_ext(lo, hi, f, g);
    } else {
        let h = |k: int|
            if k == i {
                g(i)
            } else {
                f(k)
            };
        lemma_count_point(lo, hi, i, f, h);
        lemma_count_point(lo, hi, j, h, g);
    }
}

} // verus!
