//! Moving a window over the data rows of a file, a page at a time.

use vstd::prelude::*;

verus! {

/// What a move of the window came to.
#[derive(Clone, Copy, Debug, PartialEq, Eq, Structural)]
pub enum PageSignal {
    /// The position was set, and the window is to be read again there.
    Moved,
    /// The window already was at the first row: nothing changed.
    AtStartOfFile,
    /// No full page follows the window: nothing changed.
    AtEndOfFile,
    /// The file has no more rows than one window holds: nothing changed.
    TooShortForPaging,
}

/// The position of a window in a file: the window starts at data row
/// `current_position`, holds up to `window_size` rows, and the file has
/// `total_rows` data rows.
#[derive(Clone, Copy, Debug, PartialEq, Eq, Structural)]
pub struct Pager {
    pub current_position: usize,
    pub window_size: usize,
    pub total_rows: usize,
}

impl Pager {
    /// Whether the window starts within the file or at its end.
    pub open spec fn in_range(self) -> bool {
        self.current_position <= self.total_rows
    }

    /// The pager with everything as in `self` but the position.
    pub open spec fn at(self, position: int) -> Pager {
        Pager {
            current_position: position as usize,
            window_size: self.window_size,
            total_rows: self.total_rows,
        }
    }

    /// Whether a full page follows the window, so that the next page can be
    /// gone to.
    pub open spec fn can_go_next(self) -> bool {
        self.current_position + self.window_size <= self.total_rows
    }

    /// The pager after a call for the next page.
    pub open spec fn after_next(self) -> Pager {
        if self.can_go_next() {
            self.at(self.current_position + self.window_size)
        } else {
            self
        }
    }

    /// The pager after `calls` calls for the next page.
    pub open spec fn after_next_pages(self, calls: nat) -> Pager
        decreases calls,
    {
        if calls == 0 {
            self
        } else {
            self.after_next_pages((calls - 1) as nat).after_next()
        }
    }

    /// The pager after a call for the previous page.
    pub open spec fn after_previous(self) -> Pager {
        if self.current_position <= self.window_size {
            self.at(0)
        } else {
            self.at(self.current_position - self.window_size)
        }
    }

    /// The pager after a call for the first page.
    pub open spec fn after_first(self) -> Pager {
        self.at(0)
    }

    /// Whether the file has more rows than one window holds, so that the last
    /// page can be gone to.
    pub open spec fn can_go_last(self) -> bool {
        self.total_rows > self.window_size
    }

    /// The pager after a call for the last page.
    pub open spec fn after_last(self) -> Pager {
        if self.can_go_last() {
            self.at(self.total_rows - self.window_size)
        } else {
            self
        }
    }

    /// A pager at the first row.
    pub fn new(window_size: usize, total_rows: usize) -> (pager: Pager)
        ensures
            pager == (Pager { current_position: 0, window_size, total_rows }),
            pager.in_range(),
    {
        Pager { current_position: 0, window_size, total_rows }
    }

    /// Goes forward by one window if a full page follows, and signals
    /// `AtEndOfFile` otherwise.
    pub fn next_page(&mut self) -> (signal: PageSignal)
        ensures
            *final(self) == old(self).after_next(),
            old(self).can_go_next() ==> signal == PageSignal::Moved,
            !old(self).can_go_next() ==> signal == PageSignal::AtEndOfFile,
            old(self).in_range() ==> final(self).in_range(),
    {
        if self.window_size <= self.total_rows && self.current_position <= self.total_rows
            - self.window_size {
            self.current_position = self.current_position + self.window_size;
            PageSignal::Moved
        } else {
            PageSignal::AtEndOfFile
        }
    }

    /// Goes back by one window, and to the first row where less than a window
    /// lies before the position.
    pub fn previous_page(&mut self) -> (signal: PageSignal)
        ensures
            *final(self) == old(self).after_previous(),
            signal == PageSignal::Moved,
            old(self).current_position <= old(self).window_size ==> final(self).current_position
                == 0,
            old(self).current_position > old(self).window_size ==> final(self).current_position
                == old(self).current_position - old(self).window_size,
            old(self).in_range() ==> final(self).in_range(),
    {
        if self.current_position <= self.window_size {
            self.current_position = 0;
        } else {
            self.current_position = self.current_position - self.window_size;
        }
        PageSignal::Moved
    }

    /// Goes to the first row, and signals `AtStartOfFile` where the window
    /// already is there.
    pub fn first_page(&mut self) -> (signal: PageSignal)
        ensures
            *final(self) == old(self).after_first(),
            old(self).current_position != 0 ==> signal == PageSignal::Moved,
            old(self).current_position == 0 ==> signal == PageSignal::AtStartOfFile && *final(self)
                == *old(self),
            final(self).in_range(),
    {
        if self.current_position != 0 {
            self.current_position = 0;
            PageSignal::Moved
        } else {
            PageSignal::AtStartOfFile
        }
    }

    /// Goes to the last full window of the file, and signals
    /// `TooShortForPaging` where the file has no more rows than one window.
    pub fn last_page(&mut self) -> (signal: PageSignal)
        ensures
            *final(self) == old(self).after_last(),
            old(self).can_go_last() ==> signal == PageSignal::Moved,
            !old(self).can_go_last() ==> signal == PageSignal::TooShortForPaging,
            old(self).in_range() ==> final(self).in_range(),
    {
        if self.total_rows > self.window_size {
            self.current_position = self.total_rows - self.window_size;
            PageSignal::Moved
        } else {
            PageSignal::TooShortForPaging
        }
    }
}

/// A call for the previous page undoes a call for the next page that moved:
/// the window is back where it was.
pub proof fn lemma_previous_undoes_next(pager: Pager)
    requires
        pager.can_go_next(),
    ensures
        pager.after_next().after_previous() == pager,
{
}

/// The number of windows of `window_size` rows that it takes to hold
/// `total_rows` rows.
pub open spec fn pages_needed(total_rows: nat, window_size: nat) -> nat {
    ((total_rows + window_size - 1) / window_size as int) as nat
}

/// From the first row, each call for the next page goes forward by one
/// window as long as a full page follows: after `calls` calls, none more than
/// there are full pages, the position is `calls * window_size`, and the next
/// call moves exactly if yet another full page follows.
pub proof fn lemma_next_pages(window_size: usize, total_rows: usize, calls: nat)
    requires
        window_size >= 1,
        calls <= total_rows as nat / window_size as nat,
    ensures
        (Pager { current_position: 0, window_size, total_rows }).after_next_pages(calls)
            == (Pager { current_position: 0, window_size, total_rows }).at(calls * window_size),
        calls * window_size <= total_rows,
        (Pager { current_position: 0, window_size, total_rows }).after_next_pages(
            calls,
        ).can_go_next() <==> calls < total_rows as nat / window_size as nat,
    decreases calls,
{
    let full = total_rows as nat / window_size as nat;
    assert(full * window_size <= total_rows < (full + 1) * window_size) by (nonlinear_arith)
        requires
            full == total_rows as nat / window_size as nat,
            window_size >= 1,
    ;
    assert(calls * window_size <= full * window_size) by (nonlinear_arith)
        requires
            calls <= full,
            window_size >= 1,
    ;
    if calls == 0 {
        assert(calls * window_size == 0) by (nonlinear_arith)
            requires
                calls == 0,
        ;
    } else {
        let earlier = (calls - 1) as nat;
        lemma_next_pages(window_size, total_rows, earlier);
        assert(earlier * window_size + window_size == calls * window_size) by (nonlinear_arith)
            requires
                earlier == calls - 1,
        ;
    }
    if calls < full {
        assert((calls + 1) * window_size <= full * window_size) by (nonlinear_arith)
            requires
                calls + 1 <= full,
                window_size >= 1,
        ;
        assert((calls + 1) * window_size == calls * window_size + window_size)
            by (nonlinear_arith);
    } else {
        assert((full + 1) * window_size == full * window_size + window_size)
            by (nonlinear_arith);
    }
}

/// From the first row of a file whose rows do not fill a whole number of
/// windows, `pages_needed` calls for the next page reach the end of the file:
/// every call before the last one moves, the last one signals `AtEndOfFile`
/// and leaves the position as it was.
pub proof fn lemma_next_pages_reach_end(window_size: usize, total_rows: usize)
    requires
        window_size >= 1,
        total_rows as nat % window_size as nat != 0,
    ensures
        pages_needed(total_rows as nat, window_size as nat) >= 1,
        forall|calls: nat|
            calls + 1 < pages_needed(total_rows as nat, window_size as nat) ==> (#[trigger] (Pager {
                current_position: 0,
                window_size,
                total_rows,
            }).after_next_pages(calls)).can_go_next(),
        !(Pager { current_position: 0, window_size, total_rows }).after_next_pages(
            (pages_needed(total_rows as nat, window_size as nat) - 1) as nat,
        ).can_go_next(),
        (Pager { current_position: 0, window_size, total_rows }).after_next_pages(
            pages_needed(total_rows as nat, window_size as nat),
        ) == (Pager { current_position: 0, window_size, total_rows }).after_next_pages(
            (pages_needed(total_rows as nat, window_size as nat) - 1) as nat,
        ),
{
    let start = Pager { current_position: 0, window_size, total_rows };
    let full = total_rows as nat / window_size as nat;
    let pages = pages_needed(total_rows as nat, window_size as nat);
    assert(pages == full + 1) by (nonlinear_arith)
        requires
            window_size >= 1,
            total_rows as nat % window_size as nat != 0,
            full == total_rows as nat / window_size as nat,
            pages == (total_rows + window_size - 1) / window_size as int,
    ;
    assert forall|calls: nat| calls + 1 < pages implies (#[trigger] start.after_next_pages(
        calls,
    )).can_go_next() by {
        lemma_next_pages(window_size, total_rows, calls);
    }
    lemma_next_pages(window_size, total_rows, full);
}

} // verus!
