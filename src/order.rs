//! The ordering relations the sorts are stated over, and what it means for a
//! sequence to be sorted or for slots to have moved.
use vstd::prelude::*;

use core::cmp::Ordering;
use vstd::std_specs::cmp::PartialOrdSpec;

use crate::counting::{
    count_idx, lemma_count_all, lemma_count_ext, lemma_count_le_len, lemma_count_mono,
    lemma_count_none, lemma_count_shift, lemma_count_single, lemma_count_split,
};

verus! {

/// Neither of `a` and `b` is less than the other under `lt`.
pub open spec fn equivalent<T>(lt: spec_fn(T, T) -> bool, a: T, b: T) -> bool {
    !lt(a, b) && !lt(b, a)
}

/// `lt` is irreflexive and transitive, and incomparability under it is
/// transitive too.
pub open spec fn strict_weak_order<T>(lt: spec_fn(T, T) -> bool) -> bool {
    &&& forall|a: T| !#[trigger] lt(a, a)
    &&& forall|a: T, b: T, c: T| #[trigger] lt(a, b) && #[trigger] lt(b, c) ==> lt(a, c)
    &&& forall|a: T, b: T, c: T|
        #[trigger] equivalent(lt, a, b) && #[trigger] equivalent(lt, b, c) ==> equivalent(
            lt,
            a,
            c,
        )
}

/// No element of `s` is less than an element before it.
pub open spec fn sorted_by<T>(s: Seq<T>, lt: spec_fn(T, T) -> bool) -> bool {
    forall|i: int, j: int| 0 <= i < j < s.len() ==> !lt(#[trigger] s[j], #[trigger] s[i])
}

/// The positions at which `before` and `after` hold different elements.
pub open spec fn changed_at<T>(before: Seq<T>, after: Seq<T>) -> spec_fn(int) -> bool {
    |k: int| before[k] != after[k]
}

/// Number of slots whose occupant in `after` differs from the one in `before`.
pub open spec fn moved_count<T>(before: Seq<T>, after: Seq<T>) -> nat {
    count_idx(0, before.len() as int, changed_at(before, after))
}

/// Every slot whose element in `after` is equivalent to the one in `before`
/// still holds that very element.
pub open spec fn keeps_ties<T>(lt: spec_fn(T, T) -> bool, before: Seq<T>, after: Seq<T>) -> bool {
    forall|i: int|
        0 <= i < before.len() && equivalent(lt, #[trigger] after[i], #[trigger] before[i])
            ==> after[i] == before[i]
}

/// The positions at which `after` holds an element not equivalent to the one
/// `before` held there.
pub open spec fn reordered_at<T>(lt: spec_fn(T, T) -> bool, before: Seq<T>, after: Seq<T>) -> spec_fn(
    int,
) -> bool {
    |k: int| !equivalent(lt, after[k], before[k])
}

/// Number of slots whose element in `after` is not equivalent to the one in
/// `before`.
pub open spec fn reordered_count<T>(lt: spec_fn(T, T) -> bool, before: Seq<T>, after: Seq<T>) -> nat {
    count_idx(0, before.len() as int, reordered_at(lt, before, after))
}

/// `a < b` under the type's own `PartialOrd`.
pub open spec fn natural_less<T: PartialOrd>(a: T, b: T) -> bool {
    a.partial_cmp_spec(&b) == Some(Ordering::Less)
}

/// The order of a type's own `PartialOrd`, as a relation.
pub open spec fn natural_order<T: PartialOrd>() -> spec_fn(T, T) -> bool {
    |a: T, b: T| natural_less(a, b)
}

/// `compare` can be called on any pair and always gives one answer per pair.
pub open spec fn is_comparator<T, F: Fn(&T, &T) -> Ordering>(compare: &F) -> bool {
    &&& forall|a: T, b: T| #[trigger] compare.requires((&a, &b))
    &&& forall|a: T, b: T, o: Ordering, p: Ordering|
        #[trigger] compare.ensures((&a, &b), o) && #[trigger] compare.ensures((&a, &b), p) ==> o
            == p
}

/// `a` is less than `b` when `compare(a, b)` gives `Less`.
pub open spec fn compare_order<T, F: Fn(&T, &T) -> Ordering>(compare: &F) -> spec_fn(T, T) -> bool {
    |a: T, b: T| compare.ensures((&a, &b), Ordering::Less)
}

/// `key` can be called on any element and always gives one key per element.
pub open spec fn is_key_fn<T, U, F: Fn(&T) -> U>(key: &F) -> bool {
    &&& forall|a: T| #[trigger] key.requires((&a,))
    &&& forall|a: T, k: U, l: U|
        #[trigger] key.ensures((&a,), k) && #[trigger] key.ensures((&a,), l) ==> k == l
}

/// `a` is less than `b` when the key of `a` is less than the key of `b`.
pub open spec fn key_order<T, U: PartialOrd, F: Fn(&T) -> U>(key: &F) -> spec_fn(T, T) -> bool {
    |a: T, b: T|
        exists|ka: U, kb: U|
            #![trigger key.ensures((&a,), ka), key.ensures((&b,), kb)]
            key.ensures((&a,), ka) && key.ensures((&b,), kb) && natural_less(ka, kb)
}

/// A sequence of fewer than two elements, or one whose elements are all the
/// same value (as every sequence of a zero-sized type is), is already sorted
/// under any strict weak ordering; the sorts leave such a slice as it is and
/// report no writes.
pub proof fn lemma_trivial_input_sorted<T>(s: Seq<T>, lt: spec_fn(T, T) -> bool)
    requires
        strict_weak_order(lt),
        s.len() < 2 || forall|i: int, j: int|
            0 <= i < s.len() && 0 <= j < s.len() ==> #[trigger] s[i] == #[trigger] s[j],
    ensures
        sorted_by(s, lt),
{
    assert forall|i: int, j: int| 0 <= i < j < s.len() implies !lt(
        #[trigger] s[j],
        #[trigger] s[i],
    ) by {
        assert(s[i] == s[j]);
        assert(!lt(s[i], s[i]));
    }
}

/// The indices of `s` whose element satisfies `p`.
pub open spec fn value_pred<T>(s: Seq<T>, p: spec_fn(T) -> bool) -> spec_fn(int) -> bool {
    |k: int| p(s[k])
}

/// Number of elements of `s` that satisfy `p`.
pub open spec fn count_values<T>(s: Seq<T>, p: spec_fn(T) -> bool) -> nat {
    count_idx(0, s.len() as int, value_pred(s, p))
}

/// The values less than `x`.
pub open spec fn less_than<T>(lt: spec_fn(T, T) -> bool, x: T) -> spec_fn(T) -> bool {
    |y: T| lt(y, x)
}

/// The values that `x` is not less than.
pub open spec fn not_above<T>(lt: spec_fn(T, T) -> bool, x: T) -> spec_fn(T) -> bool {
    |y: T| !lt(x, y)
}

proof fn lemma_count_values_remove<T>(t: Seq<T>, j: int, p: spec_fn(T) -> bool)
    requires
        0 <= j < t.len(),
    ensures
        count_values(t, p) == count_values(t.remove(j), p) + if p(t[j]) {
            1nat
        } else {
            0nat
        },
{
    let n = t.len() as int;
    let r = t.remove(j);
    let f = value_pred(t, p);
    let g = value_pred(r, p);
    lemma_count_split(0, j, n, f);
    lemma_count_split(j, j + 1, n, f);
    lemma_count_single(j, f);
    lemma_count_split(0, j, n - 1, g);
    lemma_count_ext(0, j, f, g);
    lemma_count_shift(j, n - 1, f, g);
}

/// How many elements satisfy a predicate depends on the multiset alone.
proof fn lemma_count_values_permutation<T>(s: Seq<T>, t: Seq<T>, p: spec_fn(T) -> bool)
    requires
        s.to_multiset() == t.to_multiset(),
    ensures
        count_values(s, p) == count_values(t, p),
    decreases s.len(),
{
    broadcast use vstd::seq_lib::to_multiset_len;
    broadcast use vstd::seq_lib::to_multiset_contains;

    assert(s.len() == s.to_multiset().len());
    assert(t.len() == t.to_multiset().len());
    if s.len() > 0 {
        let i = s.len() - 1;
        let x = s[i];
        assert(s.contains(x));
        assert(s.to_multiset().count(x) > 0);
        assert(t.to_multiset().count(x) > 0);
        assert(t.contains(x));
        let j = choose|j: int| 0 <= j < t.len() && t[j] == x;
        vstd::seq_lib::to_multiset_remove(s, i);
        vstd::seq_lib::to_multiset_remove(t, j);
        lemma_count_values_permutation(s.remove(i), t.remove(j), p);
        lemma_count_values_remove(s, i, p);
        lemma_count_values_remove(t, j, p);
    }
}

/// In a sorted sequence at most `i` elements are less than `s[i]`, and at
/// least `i + 1` are not greater than it.
proof fn lemma_sorted_rank<T>(s: Seq<T>, lt: spec_fn(T, T) -> bool, i: int)
    requires
        strict_weak_order(lt),
        sorted_by(s, lt),
        0 <= i < s.len(),
    ensures
        count_values(s, less_than(lt, s[i])) <= i,
        count_values(s, not_above(lt, s[i])) >= i + 1,
{
    let n = s.len() as int;
    let f = value_pred(s, less_than(lt, s[i]));
    let g = value_pred(s, not_above(lt, s[i]));
    assert forall|k: int| i <= k < n implies !#[trigger] f(k) by {
        if k > i {
            assert(!lt(s[k], s[i]));
        }
    }
    lemma_count_split(0, i, n, f);
    lemma_count_le_len(0, i, f);
    lemma_count_none(i, n, f);
    assert forall|k: int| 0 <= k < i + 1 implies #[trigger] g(k) by {
        if k < i {
            assert(!lt(s[i], s[k]));
        }
    }
    lemma_count_split(0, i + 1, n, g);
    lemma_count_all(0, i + 1, g);
}

proof fn lemma_sorted_not_less_at<T>(s: Seq<T>, t: Seq<T>, lt: spec_fn(T, T) -> bool, i: int)
    requires
        strict_weak_order(lt),
        sorted_by(s, lt),
        sorted_by(t, lt),
        s.to_multiset() == t.to_multiset(),
        0 <= i < s.len(),
        s.len() == t.len(),
    ensures
        !lt(s[i], t[i]),
{
    if lt(s[i], t[i]) {
        lemma_sorted_rank(s, lt, i);
        lemma_sorted_rank(t, lt, i);
        let f = value_pred(s, not_above(lt, s[i]));
        let g = value_pred(s, less_than(lt, t[i]));
        assert forall|k: int| 0 <= k < s.len() && f(k) implies #[trigger] g(k) by {
            if !lt(s[k], s[i]) {
                lemma_equivalent_then_less(lt, s[k], s[i], t[i]);
            }
        }
        lemma_count_mono(0, s.len() as int, f, g);
        lemma_count_values_permutation(s, t, less_than(lt, t[i]));
    }
}

/// Two sorted arrangements of the same elements hold equivalent elements in
/// every slot.
pub proof fn lemma_sorted_arrangements_agree<T>(
    s: Seq<T>,
    t: Seq<T>,
    lt: spec_fn(T, T) -> bool,
    i: int,
)
    requires
        strict_weak_order(lt),
        sorted_by(s, lt),
        sorted_by(t, lt),
        s.to_multiset() == t.to_multiset(),
        0 <= i < s.len(),
    ensures
        i < t.len(),
        equivalent(lt, s[i], t[i]),
{
    broadcast use vstd::seq_lib::to_multiset_len;

    assert(s.len() == s.to_multiset().len());
    assert(t.len() == t.to_multiset().len());
    lemma_sorted_not_less_at(s, t, lt, i);
    lemma_sorted_not_less_at(t, s, lt, i);
}

/// A sort that keeps every slot whose element is equivalent to the one that
/// belongs there changes as few slots as any sort can: no sorted arrangement
/// of the same elements differs from the input in fewer slots.
pub proof fn lemma_fewest_writes<T>(
    lt: spec_fn(T, T) -> bool,
    before: Seq<T>,
    after: Seq<T>,
    other: Seq<T>,
)
    requires
        strict_weak_order(lt),
        after.to_multiset() == before.to_multiset(),
        other.to_multiset() == before.to_multiset(),
        sorted_by(after, lt),
        sorted_by(other, lt),
        keeps_ties(lt, before, after),
    ensures
        moved_count(before, after) <= moved_count(before, other),
{
    let n = before.len() as int;
    assert forall|k: int| 0 <= k < n && changed_at(before, after)(k) implies #[trigger] changed_at(
        before,
        other,
    )(k) by {
        broadcast use vstd::seq_lib::to_multiset_len;

        assert(before.len() == before.to_multiset().len());
        assert(after.len() == after.to_multiset().len());
        lemma_sorted_arrangements_agree(after, other, lt, k);
        if other[k] == before[k] {
            assert(equivalent(lt, after[k], before[k]));
        }
    }
    lemma_count_mono(0, n, changed_at(before, after), changed_at(before, other));
}

/// Any two sorts that keep ties report the same number of changed slots for
/// one input, whichever entry point made them, as long as they sort by the
/// same relation.
pub proof fn lemma_tie_keeping_sorts_agree_on_count<T>(
    lt: spec_fn(T, T) -> bool,
    before: Seq<T>,
    a: Seq<T>,
    b: Seq<T>,
)
    requires
        strict_weak_order(lt),
        a.to_multiset() == before.to_multiset(),
        b.to_multiset() == before.to_multiset(),
        sorted_by(a, lt),
        sorted_by(b, lt),
        keeps_ties(lt, before, a),
        keeps_ties(lt, before, b),
    ensures
        moved_count(before, a) == moved_count(before, b),
{
    lemma_fewest_writes(lt, before, a, b);
    lemma_fewest_writes(lt, before, b, a);
}

/// Every element is equivalent to itself.
pub proof fn lemma_equivalent_refl<T>(lt: spec_fn(T, T) -> bool, a: T)
    requires
        strict_weak_order(lt),
    ensures
        equivalent(lt, a, a),
{
    assert(!lt(a, a));
}

/// `a ~ b < c` gives `a < c`.
pub proof fn lemma_equivalent_then_less<T>(lt: spec_fn(T, T) -> bool, a: T, b: T, c: T)
    requires
        strict_weak_order(lt),
        equivalent(lt, a, b),
        lt(b, c),
    ensures
        lt(a, c),
{
    if !lt(a, c) {
        if lt(c, a) {
            assert(lt(b, c) && lt(c, a));
        } else {
            assert(equivalent(lt, c, a) && equivalent(lt, a, b));
            assert(equivalent(lt, c, b));
        }
    }
}

/// `a < b ~ c` gives `a < c`.
pub proof fn lemma_less_then_equivalent<T>(lt: spec_fn(T, T) -> bool, a: T, b: T, c: T)
    requires
        strict_weak_order(lt),
        lt(a, b),
        equivalent(lt, b, c),
    ensures
        lt(a, c),
{
    if !lt(a, c) {
        if lt(c, a) {
            assert(lt(c, a) && lt(a, b));
        } else {
            assert(equivalent(lt, b, c) && equivalent(lt, c, a));
            assert(equivalent(lt, b, a));
        }
    }
}

} // verus!
