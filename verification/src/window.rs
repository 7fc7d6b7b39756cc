//! The page window: the slice of a record set that one page shows.
//!
//! A requested page index past the last page is clamped to the last page
//! rather than rejected: a stale current-page pointer left over from a
//! larger record set must degrade to the last valid page, not to an error
//! or an empty answer.

use vstd::prelude::*;

use crate::ranges::{
    lemma_num_pages_bounds, lemma_page_within, num_pages, page_count, page_end, page_start,
};
use crate::CoreError;
use vstd::arithmetic::mul::lemma_mul_is_distributive_add_other_way;

verus! {

/// The page index actually shown for a requested index: indexes past the
/// last page fall back to the last page.
pub open spec fn clamp_page(total: int, size: int, idx: int) -> int {
    if idx >= num_pages(total, size) {
        num_pages(total, size) - 1
    } else {
        idx
    }
}

/// Where the shown window starts.
pub open spec fn window_start(total: int, size: int, idx: int) -> int {
    page_start(size, clamp_page(total, size, idx))
}

/// Where the shown window ends.
pub open spec fn window_end(total: int, size: int, idx: int) -> int {
    page_end(total, size, clamp_page(total, size, idx))
}

/// The records the shown window holds.
pub open spec fn window_spec<T>(records: Seq<T>, size: int, idx: int) -> Seq<T> {
    records.subrange(
        window_start(records.len() as int, size, idx),
        window_end(records.len() as int, size, idx),
    )
}

/// Clamping is idempotent: every page index at or past the last page shows
/// the same window as the last page itself.
pub proof fn lemma_window_clamp_idempotent<T>(records: Seq<T>, size: int, idx: int)
    requires
        size >= 1,
        idx >= num_pages(records.len() as int, size) - 1,
    ensures
        window_spec(records, size, idx) == window_spec(
            records,
            size,
            num_pages(records.len() as int, size) - 1,
        ),
{
    lemma_num_pages_bounds(records.len() as int, size);
}

/// The window for the requested page: the record slice
/// `[window_start, window_end)` after clamping the page index.
///
/// A zero `page_size` is a contract violation and is rejected. The returned
/// records are clones of the slice `records[window_start..window_end]`.
pub fn window_for<T: Clone>(records: &Vec<T>, page_size: usize, page_index: usize) -> (r: Result<
    Vec<T>,
    CoreError,
>)
    ensures
        match r {
            Ok(w) => {
                let s = window_start(records@.len() as int, page_size as int, page_index as int);
                let e = window_end(records@.len() as int, page_size as int, page_index as int);
                page_size >= 1 && w@.len() == e - s && (forall|t: int|
                    0 <= t < w@.len() ==> cloned::<T>(records@[s + t], #[trigger] w@[t]))
            },
            Err(err) => page_size == 0 && err == CoreError::InvalidArgument,
        },
{
    if page_size == 0 {
        return Err(CoreError::InvalidArgument);
    }
    let ghost total = records@.len() as int;
    let ghost size = page_size as int;
    let np = page_count(records.len(), page_size);
    let page = if page_index >= np {
        np - 1
    } else {
        page_index
    };
    proof {
        assert(page as int == clamp_page(total, size, page_index as int));
        lemma_page_within(total, size, page as int);
        assert((page as int + 1) * size == page as int * size + 1 * size) by {
            lemma_mul_is_distributive_add_other_way(size, page as int, 1);
        }
    }
    let start = page * page_size;
    let end = if records.len() - start >= page_size {
        start + page_size
    } else {
        records.len()
    };
    let ghost ws = window_start(total, size, page_index as int);
    let ghost we = window_end(total, size, page_index as int);
    proof {
        assert(start as int == ws);
        assert(end as int == we);
    }
    let mut w: Vec<T> = Vec::new();
    let mut t = start;
    while t < end
        invariant
            start <= t <= end,
            end <= records@.len(),
            ws == start as int,
            w@.len() == t - start,
            forall|u: int| 0 <= u < w@.len() ==> cloned::<T>(records@[ws + u], #[trigger] w@[u]),
        decreases end - t,
    {
        let item = records[t].clone();
        w.push(item);
        t = t + 1;
    }
    Ok(w)
}

} // verus!
