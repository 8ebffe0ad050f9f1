use vstd::prelude::*;

verus! {

/// Whether neither of `a` and `b` is less than the other under `is_less`.
///
/// `is_less(b, a)` is asked only when `is_less(a, b)` was false.
pub fn are_equal<T, F: Fn(&T, &T) -> bool>(a: &T, b: &T, is_less: &F) -> (r: bool)
    requires
        is_less.requires((a, b)),
        is_less.requires((b, a)),
    ensures
        exists|x: bool|
            #[trigger] is_less.ensures((a, b), x) && if x {
                !r
            } else {
                exists|y: bool| #[trigger] is_less.ensures((b, a), y) && r == !y
            },
{
    !is_less(a, b) && !is_less(b, a)
}

} // verus!
