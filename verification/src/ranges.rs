//! Page-range computation over an in-memory record set.
//!
//! Given a total record count and a page size, the record set is split into
//! an ordered sequence of half-open index ranges, one per page. The ranges
//! partition `[0, total)` contiguously; an empty record set yields the single
//! sentinel range `[0, 0)` so that downstream code can always address the
//! first page.

use vstd::prelude::*;

use crate::CoreError;
use vstd::arithmetic::div_mod::{
    lemma_fundamental_div_mod, lemma_fundamental_div_mod_converse_div, lemma_mod_bound,
};
use vstd::arithmetic::mul::{
    lemma_mul_left_inequality,
    lemma_mul_inequality, lemma_mul_is_commutative, lemma_mul_is_distributive_add_other_way,
    lemma_mul_is_distributive_sub_other_way,
};

verus! {

/// One page of the record set: the half-open index range `[start, end)`.
#[derive(Clone, Copy, Debug, PartialEq, Eq, Structural)]
pub struct PageRange {
    pub start: usize,
    pub end: usize,
}

/// The number of pages that `total` records occupy at `size` records per
/// page: `ceil(total / size)`, except that an empty record set still
/// occupies one (empty) page.
pub open spec fn num_pages(total: int, size: int) -> int {
    if total == 0 {
        1
    } else {
        (total + size - 1) / size
    }
}

/// Where page `i` starts.
pub open spec fn page_start(size: int, i: int) -> int {
    i * size
}

/// Where page `i` ends: one full page further, or at the end of the record
/// set, whichever comes first.
pub open spec fn page_end(total: int, size: int, i: int) -> int {
    if (i + 1) * size <= total {
        (i + 1) * size
    } else {
        total
    }
}

/// Bounds tying `num_pages` to the record count: there is at least one page,
/// the pages together reach the end of the record set, and no page past the
/// last would be needed.
pub proof fn lemma_num_pages_bounds(total: int, size: int)
    requires
        total >= 0,
        size >= 1,
    ensures
        num_pages(total, size) >= 1,
        num_pages(total, size) * size >= total,
        total > 0 ==> (num_pages(total, size) - 1) * size < total,
        num_pages(total, size) <= total + 1,
{
    if total == 0 {
        assert(num_pages(total, size) * size == size) by {
            assert(1 * size == size);
        }
    } else {
        let x = total + size - 1;
        let q = x / size;
        lemma_fundamental_div_mod(x, size);
        lemma_mod_bound(x, size);
        let r = x % size;
        assert(x == size * q + r);
        assert(q >= 1) by {
            if q <= 0 {
                assert(size * q <= 0) by {
                    lemma_mul_inequality(q, 0, size);
                }
            }
        }
        assert(q * size == size * q);
        assert(q * size == total + size - 1 - r);
        assert(q * size >= total);
        assert((q - 1) * size == q * size - 1 * size) by {
            lemma_mul_is_distributive_sub_other_way(size, q, 1);
        }
        assert((q - 1) * size == total - 1 - r);
        assert((q - 1) * size < total);
        assert(q <= total) by {
            if q > total {
                assert(q * size >= q) by {
                    lemma_mul_inequality(1, size, q);
                }
                assert((q - 1) * size >= q - 1) by {
                    lemma_mul_inequality(1, size, q - 1);
                }
            }
        }
    }
}

/// The ranges of successive pages tile `[0, total)`: the first page starts
/// at zero, each page ends where the next begins, no page is reversed, and
/// the last page ends exactly at `total`.
pub proof fn lemma_ranges_partition(total: int, size: int)
    requires
        total >= 0,
        size >= 1,
    ensures
        page_start(size, 0) == 0,
        page_end(total, size, num_pages(total, size) - 1) == total,
        forall|i: int|
            0 <= i < num_pages(total, size) ==> page_start(size, i) <= #[trigger] page_end(
                total,
                size,
                i,
            ),
        forall|i: int|
            0 <= i < num_pages(total, size) - 1 ==> #[trigger] page_end(total, size, i)
                == page_start(size, i + 1),
{
    let np = num_pages(total, size);
    lemma_num_pages_bounds(total, size);
    assert(page_start(size, 0) == 0) by {
        assert(0 * size == 0);
    }
    assert(page_end(total, size, np - 1) == total) by {
        assert((np - 1 + 1) * size == np * size);
    }
    assert forall|i: int| 0 <= i < np implies page_start(size, i) <= #[trigger] page_end(
        total,
        size,
        i,
    ) by {
        lemma_page_within(total, size, i);
    }
    assert forall|i: int| 0 <= i < np - 1 implies #[trigger] page_end(total, size, i)
        == page_start(size, i + 1) by {
        assert((i + 1) * size <= (np - 1) * size) by {
            lemma_mul_inequality(i + 1, np - 1, size);
        }
        if total > 0 {
            assert((np - 1) * size < total);
        }
    }
}

/// Page `i` of a populated record set lies inside `[0, total)` and is not
/// reversed.
pub proof fn lemma_page_within(total: int, size: int, i: int)
    requires
        total >= 0,
        size >= 1,
        0 <= i < num_pages(total, size),
    ensures
        0 <= page_start(size, i),
        page_start(size, i) <= page_end(total, size, i),
        page_end(total, size, i) <= total,
        page_start(size, i) + size >= page_end(total, size, i),
        total > 0 ==> page_start(size, i) < total,
{
    let np = num_pages(total, size);
    lemma_num_pages_bounds(total, size);
    assert(i * size >= 0) by {
        lemma_mul_inequality(0, i, size);
        assert(0 * size == 0);
    }
    assert((i + 1) * size == i * size + 1 * size) by {
        lemma_mul_is_distributive_add_other_way(size, i, 1);
    }
    if total > 0 {
        assert(i * size <= (np - 1) * size) by {
            lemma_mul_inequality(i, np - 1, size);
        }
        assert((np - 1) * size < total);
    }
}

/// The page count, computed without building the ranges.
///
/// Matches `num_pages`: `ceil(total_records / page_size)`, with one page for
/// an empty record set.
pub fn page_count(total_records: usize, page_size: usize) -> (n: usize)
    requires
        page_size >= 1,
    ensures
        n as int == num_pages(total_records as int, page_size as int),
        n >= 1,
{
    let ghost total = total_records as int;
    let ghost size = page_size as int;
    proof {
        lemma_num_pages_bounds(total, size);
    }
    if total_records == 0 {
        1
    } else {
        let q = total_records / page_size;
        let r = total_records % page_size;
        proof {
            lemma_fundamental_div_mod(total, size);
            lemma_mod_bound(total, size);
            assert(size * (q as int) == (q as int) * size) by {
                lemma_mul_is_commutative(size, q as int);
            }
            if r == 0 {
                assert(total + size - 1 == (q as int) * size + (size - 1));
                lemma_fundamental_div_mod_converse_div(total + size - 1, size, q as int, size - 1);
            } else {
                assert((q as int + 1) * size == (q as int) * size + 1 * size) by {
                    lemma_mul_is_distributive_add_other_way(size, q as int, 1);
                }
                assert(total + size - 1 == (q as int + 1) * size + (r - 1));
                lemma_fundamental_div_mod_converse_div(
                    total + size - 1,
                    size,
                    q as int + 1,
                    r - 1,
                );
                assert(q < total_records) by {
                    if q > 0 {
                        lemma_mul_left_inequality(q as int, 1, size);
                        assert((q as int) * 1 == q as int);
                    }
                }
            }
        }
        if r == 0 {
            q
        } else {
            q + 1
        }
    }
}

/// The ordered sequence of page ranges over `total_records` records at
/// `page_size` records per page.
///
/// A zero `page_size` is a contract violation and is rejected; it is never
/// coerced. Otherwise the ranges returned partition `[0, total_records)`
/// contiguously (see [`lemma_ranges_partition`]); an empty record set yields
/// the single sentinel range `[0, 0)`.
pub fn compute_ranges(total_records: usize, page_size: usize) -> (r: Result<
    Vec<PageRange>,
    CoreError,
>)
    ensures
        match r {
            Ok(v) => page_size >= 1 && v@.len() == num_pages(
                total_records as int,
                page_size as int,
            ) && (forall|i: int|
                0 <= i < v@.len() ==> (#[trigger] v@[i]).start == page_start(page_size as int, i)
                    && v@[i].end == page_end(total_records as int, page_size as int, i)),
            Err(e) => page_size == 0 && e == CoreError::InvalidArgument,
        },
{
    if page_size == 0 {
        return Err(CoreError::InvalidArgument);
    }
    let ghost total = total_records as int;
    let ghost size = page_size as int;
    let n = page_count(total_records, page_size);
    let mut v: Vec<PageRange> = Vec::new();
    let mut i: usize = 0;
    while i < n
        invariant
            page_size >= 1,
            total == total_records as int,
            size == page_size as int,
            n as int == num_pages(total, size),
            i <= n,
            v@.len() == i as int,
            forall|j: int|
                0 <= j < i as int ==> (#[trigger] v@[j]).start == page_start(size, j)
                    && v@[j].end == page_end(total, size, j),
        decreases n - i,
    {
        proof {
            lemma_page_within(total, size, i as int);
            assert((i as int + 1) * size == i as int * size + 1 * size) by {
                lemma_mul_is_distributive_add_other_way(size, i as int, 1);
            }
        }
        let start = i * page_size;
        let remaining = total_records - start;
        let end = if remaining >= page_size {
            start + page_size
        } else {
            total_records
        };
        v.push(PageRange { start, end });
        i = i + 1;
    }
    Ok(v)
}

} // verus!
