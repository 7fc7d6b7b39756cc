//! The pagination controller: current-page state over a live record set.
//!
//! The controller owns a 1-based current page and keeps it inside
//! `[1, max_page]` through every transition. The record count may change
//! under it (a live reload); the controller then clamps the current page
//! down rather than letting an out-of-range page persist. Stepping past
//! either end is a no-op, not an error: next/prev controls may be invoked
//! repeatedly at the boundary.

use vstd::prelude::*;

use crate::ranges::{num_pages, page_count};
use crate::window::{window_end, window_for, window_start};
use crate::CoreError;

verus! {

/// Pagination metadata for rendering page controls.
#[derive(Clone, Copy, Debug, PartialEq, Eq, Structural)]
pub struct PageMeta {
    pub current_page: usize,
    pub total_pages: usize,
    pub total_records: usize,
    pub has_next: bool,
    pub has_prev: bool,
}

/// Current-page state over a record set: the page is 1-based and always
/// lies inside `[1, max_page]` (see [`PaginationController::wf`]).
#[derive(Clone, Copy, Debug, PartialEq, Eq, Structural)]
pub struct PaginationController {
    pub current_page: usize,
    pub page_size: usize,
    pub total_records: usize,
}

impl PaginationController {
    /// The last valid page for the current record count.
    pub open spec fn max_page(&self) -> int {
        num_pages(self.total_records as int, self.page_size as int)
    }

    /// Well-formedness: a positive page size and a current page inside
    /// `[1, max_page]`. Constructors establish it and every transition
    /// preserves it.
    pub open spec fn wf(&self) -> bool {
        &&& self.page_size >= 1
        &&& 1 <= self.current_page as int <= self.max_page()
    }

    /// A controller at page 1 of an empty record set.
    ///
    /// A zero `page_size` is a contract violation and is rejected.
    pub fn new(page_size: usize) -> (r: Result<Self, CoreError>)
        ensures
            match r {
                Ok(c) => page_size >= 1 && c.wf() && c.current_page == 1 && c.page_size
                    == page_size && c.total_records == 0,
                Err(e) => page_size == 0 && e == CoreError::InvalidArgument,
            },
    {
        if page_size == 0 {
            return Err(CoreError::InvalidArgument);
        }
        Ok(PaginationController { current_page: 1, page_size, total_records: 0 })
    }

    /// Adopt a new record count, clamping the current page down to the new
    /// last page if the set shrank below it. This is the only transition
    /// outside direct user action.
    pub fn set_total_records(&mut self, n: usize)
        requires
            old(self).wf(),
        ensures
            final(self).wf(),
            final(self).page_size == old(self).page_size,
            final(self).total_records == n,
            final(self).current_page as int == if old(self).current_page as int <= num_pages(
                n as int,
                old(self).page_size as int,
            ) {
                old(self).current_page as int
            } else {
                num_pages(n as int, old(self).page_size as int)
            },
    {
        self.total_records = n;
        let np = page_count(n, self.page_size);
        if self.current_page > np {
            self.current_page = np;
        }
    }

    /// One page forward, if and only if a next page exists; at the last
    /// page this is a no-op.
    pub fn next(&mut self)
        requires
            old(self).wf(),
        ensures
            final(self).wf(),
            final(self).page_size == old(self).page_size,
            final(self).total_records == old(self).total_records,
            final(self).current_page as int == if (old(self).current_page as int) < old(
                self,
            ).max_page() {
                old(self).current_page as int + 1
            } else {
                old(self).current_page as int
            },
    {
        let np = page_count(self.total_records, self.page_size);
        if self.current_page < np {
            self.current_page = self.current_page + 1;
        }
    }

    /// One page back, if and only if the current page is not the first; at
    /// page 1 this is a no-op.
    pub fn prev(&mut self)
        requires
            old(self).wf(),
        ensures
            final(self).wf(),
            final(self).page_size == old(self).page_size,
            final(self).total_records == old(self).total_records,
            final(self).current_page as int == if old(self).current_page > 1 {
                old(self).current_page as int - 1
            } else {
                old(self).current_page as int
            },
    {
        if self.current_page > 1 {
            self.current_page = self.current_page - 1;
        }
    }

    /// The window of `records` that the current page shows; see
    /// [`crate::window::window_for`]. The page index handed down is the
    /// zero-based `current_page - 1`, clamped against `records.len()`
    /// itself, so a record set shorter or longer than the adopted count
    /// still yields a valid slice.
    pub fn current_window<T: Clone>(&self, records: &Vec<T>) -> (w: Vec<T>)
        requires
            self.wf(),
        ensures
            ({
                let s = window_start(
                    records@.len() as int,
                    self.page_size as int,
                    self.current_page as int - 1,
                );
                let e = window_end(
                    records@.len() as int,
                    self.page_size as int,
                    self.current_page as int - 1,
                );
                w@.len() == e - s && (forall|t: int|
                    0 <= t < w@.len() ==> cloned::<T>(records@[s + t], #[trigger] w@[t]))
            }),
    {
        match window_for(records, self.page_size, self.current_page - 1) {
            Ok(w) => w,
            Err(_) => unreached(),
        }
    }

    /// The metadata the page controls render: where the view stands and
    /// whether either step control is live.
    pub fn meta(&self) -> (m: PageMeta)
        requires
            self.wf(),
        ensures
            m.current_page == self.current_page,
            m.total_pages as int == self.max_page(),
            m.total_records == self.total_records,
            m.has_next == ((self.current_page as int) < self.max_page()),
            m.has_prev == (self.current_page > 1),
    {
        let np = page_count(self.total_records, self.page_size);
        PageMeta {
            current_page: self.current_page,
            total_pages: np,
            total_records: self.total_records,
            has_next: self.current_page < np,
            has_prev: self.current_page > 1,
        }
    }
}

} // verus!
