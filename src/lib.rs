//! Cycle sort: an in-place, unstable comparison sort that changes as few
//! slots as any sort can and reports how many it changed.
//!
//! Elements are placed by following cycles: the element being moved is held
//! in the slot where its cycle started and exchanged with the slot it belongs
//! in, until the element that belongs in the starting slot comes round. Only
//! slots whose element is out of place ever change, and a slot whose element
//! is equivalent to the one that belongs there keeps it; the count returned is
//! the number of slots whose element changed. Finding each element's place
//! takes `O(n^2)` comparisons whatever the input, an already sorted slice
//! included.
//!
//! The ordering should be a strict weak ordering; the sorting guarantees hold
//! only then. Whatever the ordering, a call returns without panicking, and
//! since elements are only ever exchanged, the slice holds each of its
//! elements exactly once. If the ordering itself panics part way, the same
//! holds, in an unspecified order.
//!
//! A slice of zero-sized elements goes through the same comparisons as any
//! other and, all its elements being equal, is reported with no writes.
mod counting;
mod cycle_sort;
pub mod order;
mod util;

pub use cycle_sort::{cycle_sort, cycle_sort_by, cycle_sort_by_key};
pub use util::are_equal;
