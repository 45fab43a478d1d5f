//! The catalog browser: a paginated audit pass over the whole accepted set
//! after review.  The page cursor is clamped to the page range, the page
//! size moves in steps of ten with a floor of ten, and a row selection is
//! honored only when it names a row actually shown on the current page.

use vstd::prelude::*;
use vstd::arithmetic::div_mod::lemma_fundamental_div_mod;
use vstd::arithmetic::mul::lemma_mul_inequality;

verus! {

/// Cursor state of the browser: current page and rows per page.
pub struct Browser {
    pub page: usize,
    pub page_size: usize,
}

impl Browser {
    /// The page size never drops below ten.
    pub open spec fn wf(self) -> bool {
        self.page_size >= 10
    }

    /// Number of pages needed for `total` songs: the least count whose pages
    /// cover them all; an empty set has no pages.
    pub open spec fn spec_page_count(self, total: int) -> int {
        if total == 0 {
            0
        } else {
            (total - 1) / (self.page_size as int) + 1
        }
    }

    /// Index of the first row of the current page.
    pub open spec fn spec_page_start(self) -> int {
        self.page * self.page_size
    }

    /// How many rows the current page shows: up to `page_size`, fewer on the
    /// last page, none when the page lies beyond the set.
    pub open spec fn spec_rows_on_page(self, total: int) -> int {
        let start = self.spec_page_start();
        if total <= start {
            0
        } else if total - start < self.page_size {
            total - start
        } else {
            self.page_size as int
        }
    }

    /// The song index a 1-based row selection names, if the row is shown on
    /// the current page.
    pub open spec fn spec_select_row(self, total: int, row: int) -> Option<int> {
        if 1 <= row && row <= self.spec_rows_on_page(total) {
            Some(self.spec_page_start() + row - 1)
        } else {
            None
        }
    }

    /// Opens the browser on the first page, twenty rows per page.
    pub fn new() -> (b: Browser)
        ensures
            b.wf(),
            b.page == 0,
            b.page_size == 20,
    {
        Browser { page: 0, page_size: 20 }
    }

    pub fn page_count(&self, total: usize) -> (r: usize)
        requires
            self.wf(),
        ensures
            r == self.spec_page_count(total as int),
    {
        if total == 0 {
            0
        } else {
            (total - 1) / self.page_size + 1
        }
    }

    /// The number of pages covers every song, and one page fewer would not:
    /// the page count is exactly the rounded-up quotient.
    pub proof fn lemma_page_count_is_ceil(self, total: int)
        requires
            self.wf(),
            total > 0,
        ensures
            self.spec_page_count(total) * self.page_size >= total,
            (self.spec_page_count(total) - 1) * self.page_size < total,
    {
        let ps = self.page_size as int;
        let q = (total - 1) / ps;
        lemma_fundamental_div_mod(total - 1, ps);
        assert((q + 1) * ps == q * ps + ps) by (nonlinear_arith);
        assert(q * ps == ps * q) by (nonlinear_arith);
    }

    fn page_start(&self, total: usize) -> (r: Option<usize>)
        requires
            self.wf(),
        ensures
            match r {
                Some(s) => s == self.spec_page_start() && s < total,
                None => self.spec_page_start() >= total,
            },
    {
        if total == 0 || self.page > (total - 1) / self.page_size {
            proof {
                if total > 0 {
                    let ps = self.page_size as int;
                    lemma_fundamental_div_mod(total - 1, ps);
                    assert(((total - 1) / ps + 1) * ps == ((total - 1) / ps) * ps + ps)
                        by (nonlinear_arith);
                    lemma_mul_inequality((total - 1) / ps + 1, self.page as int, ps);
                }
            }
            None
        } else {
            proof {
                let ps = self.page_size as int;
                lemma_fundamental_div_mod(total - 1, ps);
                lemma_mul_inequality(self.page as int, (total - 1) / ps, ps);
                assert(((total - 1) / ps) * ps == ps * ((total - 1) / ps)) by (nonlinear_arith);
            }
            Some(self.page * self.page_size)
        }
    }

    pub fn rows_on_page(&self, total: usize) -> (r: usize)
        requires
            self.wf(),
        ensures
            r == self.spec_rows_on_page(total as int),
    {
        match self.page_start(total) {
            None => 0,
            Some(start) => {
                if total - start < self.page_size {
                    total - start
                } else {
                    self.page_size
                }
            },
        }
    }

    /// Advances one page, clamped to the last page.
    pub fn next_page(&mut self, total: usize)
        requires
            old(self).wf(),
        ensures
            final(self).wf(),
            final(self).page_size == old(self).page_size,
            final(self).page == (if old(self).page + 1 < old(self).spec_page_count(total as int) {
                old(self).page + 1
            } else {
                old(self).page as int
            }),
    {
        let pc = self.page_count(total);
        if pc > 0 && self.page < pc - 1 {
            self.page = self.page + 1;
        }
    }

    /// Retreats one page, clamped to the first page.
    pub fn prev_page(&mut self)
        requires
            old(self).wf(),
        ensures
            final(self).wf(),
            final(self).page_size == old(self).page_size,
            final(self).page == (if old(self).page > 0 {
                old(self).page - 1
            } else {
                0
            }),
    {
        if self.page > 0 {
            self.page = self.page - 1;
        }
    }

    /// Widens the page by ten rows.
    pub fn grow_page_size(&mut self)
        requires
            old(self).wf(),
        ensures
            final(self).wf(),
            final(self).page == old(self).page,
            final(self).page_size == (if old(self).page_size + 10 <= usize::MAX {
                old(self).page_size + 10
            } else {
                old(self).page_size as int
            }),
    {
        if self.page_size <= usize::MAX - 10 {
            self.page_size = self.page_size + 10;
        }
    }

    /// Narrows the page by ten rows, never below the floor of ten.
    pub fn shrink_page_size(&mut self)
        requires
            old(self).wf(),
        ensures
            final(self).wf(),
            final(self).page == old(self).page,
            final(self).page_size == (if old(self).page_size >= 20 {
                old(self).page_size - 10
            } else {
                old(self).page_size as int
            }),
    {
        if self.page_size >= 20 {
            self.page_size = self.page_size - 10;
        }
    }

    /// Resolves a 1-based row selection on the current page to an index into
    /// the song list.  A row number outside the rows actually shown — `0`,
    /// or anything past the end of the page — selects nothing.
    pub fn select_row(&self, total: usize, row: usize) -> (r: Option<usize>)
        requires
            self.wf(),
        ensures
            match r {
                Some(idx) => Some(idx as int) == self.spec_select_row(total as int, row as int)
                    && idx < total,
                None => self.spec_select_row(total as int, row as int) is None,
            },
    {
        let rows = self.rows_on_page(total);
        if 1 <= row && row <= rows {
            match self.page_start(total) {
                Some(start) => Some(start + (row - 1)),
                None => None,
            }
        } else {
            None
        }
    }

    /// Selecting row `0` or row `page_size + 1` never names a song: both lie
    /// outside every page, whatever the set size, so the browser redisplays
    /// the same page with nothing changed.
    pub proof fn lemma_out_of_range_selection_is_noop(self, total: int)
        requires
            self.wf(),
        ensures
            self.spec_select_row(total, 0) is None,
            self.spec_select_row(total, self.page_size + 1) is None,
    {
    }
}

} // verus!
