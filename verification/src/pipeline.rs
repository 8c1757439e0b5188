//! How much work runs at once.

use vstd::prelude::*;

verus! {

/// The number of threads to run: what is asked for, but no more than there are work
/// items, and one at least where one is asked for.
pub open spec fn resolved_threads(requested: usize, work_items: usize) -> usize {
    let useful = if work_items == 0 {
        1
    } else {
        work_items
    };
    if requested < useful {
        requested
    } else {
        useful
    }
}

/// The number of threads to run for `work_items` items.
pub fn resolve_thread_count(requested_thread_count: usize, work_items: usize) -> (threads: usize)
    ensures
        threads == resolved_threads(requested_thread_count, work_items),
{
    let useful = if work_items == 0 {
        1
    } else {
        work_items
    };
    if requested_thread_count < useful {
        requested_thread_count
    } else {
        useful
    }
}

/// No more threads run than are asked for, and none idles while there is work.
pub proof fn law_threads_are_capped(requested: usize, work_items: usize)
    ensures
        resolved_threads(requested, work_items) <= requested,
        work_items > 0 ==> resolved_threads(requested, work_items) <= work_items,
        requested > 0 ==> resolved_threads(requested, work_items) > 0,
{
}

/// As many threads run as are asked for and have something to do.
pub proof fn law_threads_are_used(requested: usize, work_items: usize)
    ensures
        requested <= work_items ==> resolved_threads(requested, work_items) == requested,
        0 < work_items <= requested ==> resolved_threads(requested, work_items) == work_items,
        work_items == 0 && requested > 0 ==> resolved_threads(requested, work_items) == 1,
{
}

} // verus!
