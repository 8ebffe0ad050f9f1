//! Cycle sort over a mutable slice.
use vstd::prelude::*;

use crate::counting::{
    count_idx, lemma_count_all, lemma_count_disjoint, lemma_count_ext, lemma_count_le_len, lemma_count_mono,
    lemma_count_none, lemma_count_point, lemma_count_single, lemma_count_split, lemma_count_swap,
    lemma_count_zero,
};
use core::cmp::Ordering;
use vstd::std_specs::cmp::PartialOrdSpec;

use crate::order::{
    changed_at, compare_order, equivalent, is_comparator, is_key_fn, keeps_ties, key_order,
    reordered_at, reordered_count,
    lemma_equivalent_refl, lemma_equivalent_then_less, lemma_less_then_equivalent, moved_count,
    natural_less, natural_order, sorted_by, strict_weak_order,
};
use crate::util::are_equal;

verus! {

/// Sorts a slice by the elements' own order and returns the number of slots
/// whose element changed.
///
/// When the order is a strict weak ordering, the slice ends sorted, a slot
/// whose new element is equivalent to its old one keeps the old one, and so
/// the count is also the number of slots whose element is not equivalent to
/// the one they held; an already sorted slice is left as it is. Whatever the
/// order, the call returns and the slice holds the same elements as before.
pub fn cycle_sort<T: Ord>(slice: &mut [T]) -> (writes: usize)
    requires
        T::obeys_partial_cmp_spec(),
    ensures
        final(slice)@.to_multiset() == old(slice)@.to_multiset(),
        strict_weak_order(natural_order::<T>()) ==> {
            &&& sorted_by(final(slice)@, natural_order::<T>())
            &&& writes == moved_count(old(slice)@, final(slice)@)
            &&& keeps_ties(natural_order::<T>(), old(slice)@, final(slice)@)
            &&& writes == reordered_count(natural_order::<T>(), old(slice)@, final(slice)@)
            &&& sorted_by(old(slice)@, natural_order::<T>()) ==> final(slice)@ == old(slice)@
                && writes == 0
        },
{
    let is_less = |a: &T, b: &T| -> (r: bool)
        requires
            T::obeys_partial_cmp_spec(),
        ensures
            r == natural_less(*a, *b),
        { a.lt(b) };
    cycle_impl(slice, &is_less, Ghost(natural_order::<T>()))
}

/// Sorts a slice with a comparator and returns the number of slots whose
/// element changed.
///
/// `a` counts as less than `b` when `compare(a, b)` is `Less`. When that
/// relation is a strict weak ordering, the slice ends sorted, a slot whose new
/// element compares `Equal` to its old one keeps the old one, and so the count
/// is also the number of slots whose new element does not compare `Equal` to
/// the old; an already sorted slice is left as it is. Whatever the relation,
/// the call returns and the slice holds the same elements as before.
pub fn cycle_sort_by<T, F: Fn(&T, &T) -> Ordering>(slice: &mut [T], compare: &F) -> (writes: usize)
    requires
        is_comparator(compare),
    ensures
        final(slice)@.to_multiset() == old(slice)@.to_multiset(),
        strict_weak_order(compare_order(compare)) ==> {
            &&& sorted_by(final(slice)@, compare_order(compare))
            &&& writes == moved_count(old(slice)@, final(slice)@)
            &&& keeps_ties(compare_order(compare), old(slice)@, final(slice)@)
            &&& writes == reordered_count(compare_order(compare), old(slice)@, final(slice)@)
            &&& sorted_by(old(slice)@, compare_order(compare)) ==> final(slice)@ == old(slice)@
                && writes == 0
        },
{
    let is_less = |a: &T, b: &T| -> (r: bool)
        requires
            is_comparator(compare),
        ensures
            r == compare_order(compare)(*a, *b),
        { matches!(compare(a, b), Ordering::Less) };
    cycle_impl(slice, &is_less, Ghost(compare_order(compare)))
}

/// Sorts a slice by a key extracted from each element and returns the number
/// of slots whose element changed.
///
/// `a` counts as less than `b` when `key(a) < key(b)`. When that relation is a
/// strict weak ordering, the slice ends sorted, a slot whose new element has
/// the same key as its old one keeps the old one, and so the count is also the
/// number of slots whose key changed; an already sorted slice is left as it
/// is. Whatever the relation, the call returns and the slice holds the same
/// elements as before.
pub fn cycle_sort_by_key<T, F: Fn(&T) -> U, U: Ord>(slice: &mut [T], key: &F) -> (writes: usize)
    requires
        is_key_fn(key),
        U::obeys_partial_cmp_spec(),
    ensures
        final(slice)@.to_multiset() == old(slice)@.to_multiset(),
        strict_weak_order(key_order(key)) ==> {
            &&& sorted_by(final(slice)@, key_order(key))
            &&& writes == moved_count(old(slice)@, final(slice)@)
            &&& keeps_ties(key_order(key), old(slice)@, final(slice)@)
            &&& writes == reordered_count(key_order(key), old(slice)@, final(slice)@)
            &&& sorted_by(old(slice)@, key_order(key)) ==> final(slice)@ == old(slice)@ && writes
                == 0
        },
{
    let is_less = |a: &T, b: &T| -> (r: bool)
        requires
            is_key_fn(key),
            U::obeys_partial_cmp_spec(),
        ensures
            r == key_order(key)(*a, *b),
        {
            let ka = key(a);
            let kb = key(b);
            ka.lt(&kb)
        };
    cycle_impl(slice, &is_less, Ghost(key_order(key)))
}

/// `is_less` may be called on any pair, and what it returns is `lt`.
pub open spec fn computes<T, F: Fn(&T, &T) -> bool>(is_less: F, lt: spec_fn(T, T) -> bool) -> bool {
    &&& forall|a: T, b: T| #[trigger] is_less.requires((&a, &b))
    &&& forall|a: T, b: T, r: bool| #[trigger] is_less.ensures((&a, &b), r) ==> r == lt(a, b)
}

/// The indices whose element is less than `x`.
spec fn below<T>(s: Seq<T>, x: T, lt: spec_fn(T, T) -> bool) -> spec_fn(int) -> bool {
    |k: int| lt(s[k], x)
}

/// The indices whose element is equivalent to `x`.
spec fn tied<T>(s: Seq<T>, x: T, lt: spec_fn(T, T) -> bool) -> spec_fn(int) -> bool {
    |k: int| equivalent(lt, s[k], x)
}

/// How many elements from index `from` on are less than `x`.
spec fn less_count<T>(s: Seq<T>, from: int, x: T, lt: spec_fn(T, T) -> bool) -> nat {
    count_idx(from, s.len() as int, below(s, x, lt))
}

/// How many elements from index `from` on are equivalent to `x`.
spec fn tied_count<T>(s: Seq<T>, from: int, x: T, lt: spec_fn(T, T) -> bool) -> nat {
    count_idx(from, s.len() as int, tied(s, x, lt))
}

/// First slot that an element equivalent to `x` takes once `s[from..]` is sorted.
spec fn rank_lo<T>(s: Seq<T>, from: int, x: T, lt: spec_fn(T, T) -> bool) -> int {
    from + less_count(s, from, x, lt)
}

/// One past the last slot that an element equivalent to `x` takes once
/// `s[from..]` is sorted.
spec fn rank_hi<T>(s: Seq<T>, from: int, x: T, lt: spec_fn(T, T) -> bool) -> int {
    rank_lo(s, from, x, lt) + tied_count(s, from, x, lt)
}

/// Slot `p` is one of the slots that `x` may end in when `s[from..]` is sorted.
spec fn in_place<T>(s: Seq<T>, from: int, lt: spec_fn(T, T) -> bool, p: int, x: T) -> bool {
    rank_lo(s, from, x, lt) <= p < rank_hi(s, from, x, lt)
}

/// The slots of `cur` whose element is not yet where the sorted `base[from..]`
/// would have it.
spec fn out_of_place<T>(base: Seq<T>, cur: Seq<T>, from: int, lt: spec_fn(T, T) -> bool) -> spec_fn(
    int,
) -> bool {
    |p: int| !in_place(base, from, lt, p, cur[p])
}

/// `s[from..]` and `t[from..]` hold as many elements less than, and
/// equivalent to, any value.
spec fn same_counts<T>(s: Seq<T>, t: Seq<T>, from: int, lt: spec_fn(T, T) -> bool) -> bool {
    forall|x: T|
        #![trigger less_count(s, from, x, lt)]
        #![trigger tied_count(s, from, x, lt)]
        less_count(s, from, x, lt) == less_count(t, from, x, lt) && tied_count(s, from, x, lt)
            == tied_count(t, from, x, lt)
}

/// `s` with the elements at `i` and `j` exchanged.
spec fn swapped<T>(s: Seq<T>, i: int, j: int) -> Seq<T> {
    s.update(i, s[j]).update(j, s[i])
}

proof fn lemma_swap_counts<T>(s: Seq<T>, from: int, i: int, j: int, lt: spec_fn(T, T) -> bool)
    requires
        0 <= from <= i < s.len(),
        from <= j < s.len(),
    ensures
        same_counts(swapped(s, i, j), s, from, lt),
{
    let t = swapped(s, i, j);
    assert forall|x: T|
        less_count(t, from, x, lt) == less_count(s, from, x, lt) && tied_count(t, from, x, lt)
            == tied_count(s, from, x, lt) by {
        lemma_count_swap(from, s.len() as int, i, j, below(t, x, lt), below(s, x, lt));
        lemma_count_swap(from, s.len() as int, i, j, tied(t, x, lt), tied(s, x, lt));
    }
}

proof fn lemma_swap_multiset<T>(s: Seq<T>, i: int, j: int)
    requires
        0 <= i < s.len(),
        0 <= j < s.len(),
    ensures
        swapped(s, i, j).to_multiset() =~= s.to_multiset(),
{
    broadcast use vstd::seq_lib::to_multiset_update;
    broadcast use vstd::seq_lib::to_multiset_contains;
    broadcast use vstd::multiset::group_multiset_axioms;

    let m = s.to_multiset();
    let u = s.update(i, s[j]);
    assert(u.to_multiset() == m.insert(s[j]).remove(s[i]));
    assert(u.update(j, s[i]).to_multiset() == u.to_multiset().insert(s[i]).remove(u[j]));
    if i == j {
        assert(swapped(s, i, j) =~= s);
    } else {
        assert(u[j] == s[j]);
        assert(s.contains(s[i]));
        assert(m.count(s[i]) > 0);
        assert(m.insert(s[j]).remove(s[i]).insert(s[i]).remove(s[j]) =~= m);
    }
}

/// The slots of equivalent elements come all before those of greater ones.
proof fn lemma_less_ranks<T>(s: Seq<T>, from: int, a: T, b: T, lt: spec_fn(T, T) -> bool)
    requires
        strict_weak_order(lt),
        0 <= from <= s.len(),
        lt(a, b),
    ensures
        rank_hi(s, from, a, lt) <= rank_lo(s, from, b, lt),
{
    let n = s.len() as int;
    let h = |k: int| lt(s[k], a) || equivalent(lt, s[k], a);
    lemma_count_disjoint(from, n, below(s, a, lt), tied(s, a, lt), h);
    assert forall|k: int| from <= k < n && h(k) implies #[trigger] below(s, b, lt)(k) by {
        if equivalent(lt, s[k], a) {
            lemma_equivalent_then_less(lt, s[k], a, b);
        }
    }
    lemma_count_mono(from, n, h, below(s, b, lt));
}

/// Equivalent elements have the same rank.
proof fn lemma_equivalent_ranks<T>(s: Seq<T>, from: int, a: T, b: T, lt: spec_fn(T, T) -> bool)
    requires
        strict_weak_order(lt),
        equivalent(lt, a, b),
    ensures
        less_count(s, from, a, lt) == less_count(s, from, b, lt),
{
    let n = s.len() as int;
    assert forall|k: int| from <= k < n && below(s, a, lt)(k) implies #[trigger] below(s, b, lt)(
        k,
    ) by {
        lemma_less_then_equivalent(lt, s[k], a, b);
    }
    assert forall|k: int| from <= k < n && below(s, b, lt)(k) implies #[trigger] below(s, a, lt)(
        k,
    ) by {
        lemma_less_then_equivalent(lt, s[k], b, a);
    }
    lemma_count_mono(from, n, below(s, a, lt), below(s, b, lt));
    lemma_count_mono(from, n, below(s, b, lt), below(s, a, lt));
}

proof fn lemma_ranks_bounded<T>(s: Seq<T>, from: int, x: T, lt: spec_fn(T, T) -> bool)
    requires
        0 <= from <= s.len(),
    ensures
        from <= rank_lo(s, from, x, lt) <= rank_hi(s, from, x, lt) <= s.len(),
{
    let n = s.len() as int;
    let h = |k: int| lt(s[k], x) || equivalent(lt, s[k], x);
    lemma_count_disjoint(from, n, below(s, x, lt), tied(s, x, lt), h);
    lemma_count_le_len(from, n, h);
}

/// Past a run of elements equivalent to `s[from]` that starts at its rank,
/// there is still a slot of that rank left.
proof fn lemma_run_within_rank<T>(s: Seq<T>, from: int, dst: int, lt: spec_fn(T, T) -> bool)
    requires
        strict_weak_order(lt),
        0 <= from < rank_lo(s, from, s[from], lt) <= dst <= s.len(),
        forall|q: int|
            rank_lo(s, from, s[from], lt) <= q < dst ==> equivalent(lt, #[trigger] s[q], s[from]),
    ensures
        dst < rank_hi(s, from, s[from], lt),
{
    let n = s.len() as int;
    let lo = rank_lo(s, from, s[from], lt);
    let f = tied(s, s[from], lt);
    lemma_equivalent_refl(lt, s[from]);
    lemma_count_split(from, from + 1, n, f);
    lemma_count_single(from, f);
    lemma_count_split(from + 1, lo, n, f);
    lemma_count_split(lo, dst, n, f);
    lemma_count_all(lo, dst, f);
}

/// Rank of `slice[src]`: `src` plus the number of later elements less than it.
fn count_smaller<T, F: Fn(&T, &T) -> bool>(
    slice: &[T],
    src: usize,
    is_less: &F,
    Ghost(lt): Ghost<spec_fn(T, T) -> bool>,
) -> (dst: usize)
    requires
        src < slice@.len(),
        computes(*is_less, lt),
    ensures
        src <= dst < slice@.len(),
        strict_weak_order(lt) ==> dst == rank_lo(slice@, src as int, slice@[src as int], lt),
{
    let s = Ghost(slice@);
    let length = slice.len();
    let mut dst = src;
    let mut i = src + 1;
    while i < length
        invariant
            s@ == slice@,
            length == slice@.len(),
            src < i <= length,
            dst < i,
            computes(*is_less, lt),
            dst == src + count_idx(src + 1, i as int, below(s@, s@[src as int], lt)),
        decreases length - i,
    {
        if is_less(&slice[i], &slice[src]) {
            dst += 1;
        }
        i += 1;
    }
    proof {
        let f = below(s@, s@[src as int], lt);
        lemma_count_split(src as int, src + 1, length as int, f);
        lemma_count_single(src as int, f);
    }
    dst
}

/// From the rank of `slice[src]`, the first slot whose element is not
/// equivalent to it; the length of the slice if every slot from there on is,
/// which only an ordering that is not a strict weak ordering can bring about.
fn skip_equivalents<T, F: Fn(&T, &T) -> bool>(
    slice: &[T],
    src: usize,
    start: usize,
    is_less: &F,
    Ghost(lt): Ghost<spec_fn(T, T) -> bool>,
) -> (dst: usize)
    requires
        src < start < slice@.len(),
        strict_weak_order(lt) ==> start == rank_lo(slice@, src as int, slice@[src as int], lt),
        computes(*is_less, lt),
    ensures
        start <= dst <= slice@.len(),
        strict_weak_order(lt) ==> start <= dst < rank_hi(
            slice@,
            src as int,
            slice@[src as int],
            lt,
        ) && dst < slice@.len() && !equivalent(lt, slice@[dst as int], slice@[src as int]),
{
    let s = Ghost(slice@);
    let x = Ghost(slice@[src as int]);
    let length = slice.len();
    proof {
        if strict_weak_order(lt) {
            lemma_ranks_bounded(s@, src as int, x@, lt);
            lemma_run_within_rank(s@, src as int, start as int, lt);
        }
    }
    let mut dst = start;
    while dst < length && are_equal(&slice[src], &slice[dst], is_less)
        invariant
            s@ == slice@,
            x@ == s@[src as int],
            length == s@.len(),
            src < start <= dst <= length,
            strict_weak_order(lt) ==> start == rank_lo(s@, src as int, x@, lt),
            forall|q: int| start <= q < dst ==> equivalent(lt, #[trigger] s@[q], x@),
            strict_weak_order(lt) ==> dst < rank_hi(s@, src as int, x@, lt) <= s@.len(),
            computes(*is_less, lt),
        decreases length - dst,
    {
        dst += 1;
        proof {
            if strict_weak_order(lt) {
                lemma_ranks_bounded(s@, src as int, x@, lt);
                lemma_run_within_rank(s@, src as int, dst as int, lt);
            }
        }
    }
    dst
}

/// Exchanges the elements at `i` and `j`.
fn exchange<T>(slice: &mut [T], i: usize, j: usize)
    requires
        i < j < old(slice)@.len(),
    ensures
        final(slice)@ == swapped(old(slice)@, i as int, j as int),
{
    let (left, right) = slice.split_at_mut(j);
    core::mem::swap(&mut left[i], &mut right[0]);
}

/// The positions other than `skip` at which `before` and `after` differ.
spec fn changed_except<T>(before: Seq<T>, after: Seq<T>, skip: int) -> spec_fn(int) -> bool {
    |k: int| k != skip && before[k] != after[k]
}

/// Moving on from `from` to `from + 1` past a least element of `s[from..]`
/// keeps every element that was in place in place.
proof fn lemma_in_place_advance<T>(s: Seq<T>, from: int, p: int, lt: spec_fn(T, T) -> bool)
    requires
        strict_weak_order(lt),
        0 <= from < p < s.len(),
        forall|k: int| from <= k < s.len() ==> !lt(#[trigger] s[k], s[from]),
        in_place(s, from, lt, p, s[p]),
    ensures
        in_place(s, from + 1, lt, p, s[p]),
{
    let n = s.len() as int;
    let e = s[p];
    let m = s[from];
    lemma_count_split(from, from + 1, n, below(s, e, lt));
    lemma_count_single(from, below(s, e, lt));
    lemma_count_split(from, from + 1, n, tied(s, e, lt));
    lemma_count_single(from, tied(s, e, lt));
    if !lt(m, e) {
        assert(!lt(s[p], m));
        assert forall|k: int| from + 1 <= k < n && below(s, e, lt)(k) implies #[trigger] below(
            s,
            m,
            lt,
        )(k) by {
            lemma_less_then_equivalent(lt, s[k], e, m);
        }
        lemma_count_mono(from + 1, n, below(s, e, lt), below(s, m, lt));
        lemma_count_none(from + 1, n, below(s, m, lt));
    }
}

/// Cycle sort of `slice` under `is_less`, which computes `lt`; returns the
/// number of slots whose element changed.
///
/// The element being moved is kept in slot `src` and exchanged with the slot
/// it belongs in, so each exchange places one element for good; the slot
/// `src` itself counts once, when the cycle closes.
fn cycle_impl<T, F: Fn(&T, &T) -> bool>(
    slice: &mut [T],
    is_less: &F,
    Ghost(lt): Ghost<spec_fn(T, T) -> bool>,
) -> (writes: usize)
    requires
        computes(*is_less, lt),
    ensures
        final(slice)@.to_multiset() == old(slice)@.to_multiset(),
        strict_weak_order(lt) ==> {
            &&& sorted_by(final(slice)@, lt)
            &&& writes == moved_count(old(slice)@, final(slice)@)
            &&& keeps_ties(lt, old(slice)@, final(slice)@)
            &&& writes == reordered_count(lt, old(slice)@, final(slice)@)
            &&& sorted_by(old(slice)@, lt) ==> final(slice)@ == old(slice)@ && writes == 0
        },
{
    let ghost init = slice@;
    let length = slice.len();

    // nothing to sort
    if length < 2 {
        proof {
            lemma_count_none(0, length as int, changed_at(init, init));
            if strict_weak_order(lt) {
            assert forall|k: int| 0 <= k < length implies !#[trigger] reordered_at(lt, init, init)(
                k,
            ) by {
                lemma_equivalent_refl(lt, init[k]);
            }
            lemma_count_none(0, length as int, reordered_at(lt, init, init));
            }
        }
        return 0;
    }
    let mut writes: usize = 0;
    let mut src: usize = 0;
    proof {
        lemma_count_none(0, length as int, changed_at(init, init));
    }
    while src < length - 1
        invariant
            length == slice@.len() == init.len(),
            2 <= length,
            src < length,
            computes(*is_less, lt),
            slice@.to_multiset() == init.to_multiset(),
            strict_weak_order(lt) ==> {
                &&& forall|i: int, j: int|
                    0 <= i < j < src ==> !lt(#[trigger] slice@[j], #[trigger] slice@[i])
                &&& forall|i: int|
                    0 <= i < src ==> #[trigger] less_count(slice@, src as int, slice@[i], lt) == 0
                &&& writes == moved_count(init, slice@)
                &&& forall|p: int|
                    src <= p < length && #[trigger] slice@[p] != init[p] ==> in_place(
                        slice@,
                        src as int,
                        lt,
                        p,
                        slice@[p],
                    )
                &&& sorted_by(init, lt) ==> slice@ == init
                &&& forall|p: int|
                    0 <= p < length && #[trigger] slice@[p] != init[p] ==> !equivalent(
                        lt,
                        slice@[p],
                        init[p],
                    )
            },
        decreases length - src,
    {
        let ghost base = slice@;
        let ghost before = writes;
        // rank of the element at `src` among `slice[src..]`
        let mut dst = count_smaller(slice, src, is_less, Ghost(lt));
        let mut moved = false;
        // exchanges made in this cycle; a strict weak ordering never needs
        // as many as `length`
        let mut rounds: usize = 0;
        proof {
            if strict_weak_order(lt) {
                if sorted_by(init, lt) {
                    lemma_count_none(src as int, length as int, below(base, base[src as int], lt));
                }
                lemma_count_le_len(
                    src + 1,
                    length as int,
                    out_of_place(base, base, src as int, lt),
                );
            }
        }
        // follow the cycle through `src` until an element that belongs at
        // `src` comes back to it
        while dst != src && rounds < length
            invariant
                length == slice@.len() == init.len() == base.len(),
                src + 1 < length,
                src <= dst < length,
                rounds <= length,
                computes(*is_less, lt),
                slice@.to_multiset() == init.to_multiset(),
                !moved ==> slice@ == base && writes == before,
                strict_weak_order(lt) ==> {
                &&& rounds + count_idx(src + 1, length as int, out_of_place(base, slice@, src as int, lt))
                    <= length - src - 1
                &&& forall|i: int| 0 <= i < src ==> slice@[i] == #[trigger] base[i]
                &&& same_counts(slice@, base, src as int, lt)
                &&& dst == rank_lo(base, src as int, slice@[src as int], lt)
                &&& forall|p: int|
                    src < p < length && #[trigger] slice@[p] != init[p] ==> in_place(
                        base,
                        src as int,
                        lt,
                        p,
                        slice@[p],
                    )
                &&& forall|p: int|
                    src <= p < length && #[trigger] base[p] != init[p] ==> in_place(
                        base,
                        src as int,
                        lt,
                        p,
                        base[p],
                    )
                &&& before == moved_count(init, base)
                &&& forall|p: int|
                    0 <= p < length && #[trigger] base[p] != init[p] ==> !equivalent(
                        lt,
                        base[p],
                        init[p],
                    )
                &&& forall|p: int|
                    0 <= p < length && p != src && #[trigger] slice@[p] != init[p] ==> !equivalent(
                        lt,
                        slice@[p],
                        init[p],
                    )
                &&& moved ==> base[src as int] == init[src as int] && rank_lo(
                    base,
                    src as int,
                    init[src as int],
                    lt,
                ) > src && writes == count_idx(
                    0,
                    length as int,
                    changed_except(init, slice@, src as int),
                )
                &&& sorted_by(init, lt) ==> slice@ == init && dst == src
                },
            decreases length - rounds,
        {
            let ghost cur = slice@;
            let ghost tmp = cur[src as int];
            proof {
                if strict_weak_order(lt) {
                    assert(less_count(cur, src as int, tmp, lt) == less_count(base, src as int, tmp, lt));
                    assert(tied_count(cur, src as int, tmp, lt) == tied_count(base, src as int, tmp, lt));
                }
            }
            // place `tmp` after any possible duplicates
            let d = skip_equivalents(slice, src, dst, is_less, Ghost(lt));
            if d == length {
                // every slot from the rank on is equivalent to `tmp`: the
                // ordering is inconsistent, so give up on this cycle
                rounds = length;
            } else {
            proof {
                lemma_swap_multiset(cur, src as int, d as int);
                if strict_weak_order(lt) {
                let y = cur[d as int];
                if lt(y, tmp) {
                    lemma_less_ranks(base, src as int, y, tmp, lt);
                } else {
                    lemma_less_ranks(base, src as int, tmp, y, lt);
                }
                assert(!in_place(base, src as int, lt, d as int, y));
                lemma_equivalent_refl(lt, tmp);
                if !moved {
                    lemma_count_ext(
                        0,
                        length as int,
                        changed_except(init, cur, src as int),
                        changed_at(init, base),
                    );
                }
                lemma_swap_counts(cur, src as int, src as int, d as int, lt);
                }
            }
            // put `tmp` into its place; what was there is the next to place
            exchange(slice, src, d);
            proof {
                if strict_weak_order(lt) {
                let new = slice@;
                lemma_count_point(
                    0,
                    length as int,
                    d as int,
                    changed_except(init, new, src as int),
                    changed_except(init, cur, src as int),
                );
                lemma_count_le_len(0, length as int, changed_except(init, new, src as int));
                lemma_count_point(
                    src + 1,
                    length as int,
                    d as int,
                    out_of_place(base, new, src as int, lt),
                    out_of_place(base, cur, src as int, lt),
                );
                assert forall|x: T|
                    #![trigger less_count(new, src as int, x, lt)]
                    #![trigger tied_count(new, src as int, x, lt)]
                    less_count(new, src as int, x, lt) == less_count(base, src as int, x, lt)
                        && tied_count(new, src as int, x, lt) == tied_count(
                        base,
                        src as int,
                        x,
                        lt,
                    ) by {
                    assert(less_count(cur, src as int, x, lt) == less_count(base, src as int, x, lt));
                    assert(tied_count(cur, src as int, x, lt) == tied_count(base, src as int, x, lt));
                }
                }
            }
            writes = writes.saturating_add(1);
            moved = true;
            rounds += 1;
            dst = count_smaller(slice, src, is_less, Ghost(lt));
            proof {
                if strict_weak_order(lt) {
                let new = slice@;
                assert(less_count(new, src as int, new[src as int], lt) == less_count(
                    base,
                    src as int,
                    new[src as int],
                    lt,
                ));
                }
            }
            }
        }
        let ghost s = slice@;
        proof {
            if strict_weak_order(lt) {
            assert(less_count(s, src as int, s[src as int], lt) == less_count(
                base,
                src as int,
                s[src as int],
                lt,
            ));
            lemma_count_zero(src as int, length as int, below(s, s[src as int], lt));
            assert forall|k: int| src <= k < length implies !lt(#[trigger] s[k], s[src as int]) by {
                assert(!below(s, s[src as int], lt)(k));
            }
            if moved {
                assert(s[src as int] != init[src as int]);
                if equivalent(lt, s[src as int], init[src as int]) {
                    lemma_equivalent_ranks(base, src as int, s[src as int], init[src as int], lt);
                }
                lemma_count_point(
                    0,
                    length as int,
                    src as int,
                    changed_at(init, s),
                    changed_except(init, s, src as int),
                );
                lemma_count_le_len(0, length as int, changed_at(init, s));
            }
            }
        }
        // the element that closed the cycle was written to `src`
        if moved {
            writes = writes.saturating_add(1);
        }
        proof {
            if strict_weak_order(lt) {
            assert forall|i: int, j: int| 0 <= i < j < src + 1 implies !lt(
                #[trigger] s[j],
                #[trigger] s[i],
            ) by {
                if j == src {
                    assert(less_count(s, src as int, s[i], lt) == less_count(
                        base,
                        src as int,
                        base[i],
                        lt,
                    ));
                    lemma_count_zero(src as int, length as int, below(s, s[i], lt));
                    assert(!below(s, s[i], lt)(src as int));
                } else {
                    assert(s[i] == base[i] && s[j] == base[j]);
                }
            }
            assert forall|i: int| 0 <= i < src + 1 implies #[trigger] less_count(
                s,
                src + 1,
                s[i],
                lt,
            ) == 0 by {
                lemma_count_split(src as int, src + 1, length as int, below(s, s[i], lt));
                if i < src {
                    assert(less_count(s, src as int, s[i], lt) == less_count(
                        base,
                        src as int,
                        base[i],
                        lt,
                    ));
                }
            }
            assert forall|p: int|
                src + 1 <= p < length && #[trigger] s[p] != init[p] implies in_place(
                s,
                src + 1,
                lt,
                p,
                s[p],
            ) by {
                assert(less_count(s, src as int, s[p], lt) == less_count(
                    base,
                    src as int,
                    s[p],
                    lt,
                ));
                assert(tied_count(s, src as int, s[p], lt) == tied_count(
                    base,
                    src as int,
                    s[p],
                    lt,
                ));
                lemma_in_place_advance(s, src as int, p, lt);
            }
            }
        }
        src += 1;
    }
    proof {
        let s = slice@;
        if strict_weak_order(lt) {
        if sorted_by(init, lt) {
            lemma_count_none(0, length as int, changed_at(init, init));
        }
        assert forall|k: int| 0 <= k < length implies #[trigger] changed_at(init, s)(k)
            == reordered_at(lt, init, s)(k) by {
            lemma_equivalent_refl(lt, s[k]);
        }
        lemma_count_ext(0, length as int, changed_at(init, s), reordered_at(lt, init, s));
        assert forall|i: int, j: int| 0 <= i < j < s.len() implies !lt(
            #[trigger] s[j],
            #[trigger] s[i],
        ) by {
            if j == src {
                assert(less_count(s, src as int, s[i], lt) == 0);
                lemma_count_zero(src as int, length as int, below(s, s[i], lt));
                assert(!below(s, s[i], lt)(src as int));
            }
        }
        }
    }
    writes
}

} // verus!
