//! How the progress of a copy is reported to a display that others use too.

use vstd::prelude::*;

verus! {

/// Whether the display can be had.
#[derive(Debug, Clone, Copy, PartialEq, Eq, Structural)]
pub enum DisplayState {
    /// It is free.
    Free,
    /// Something else holds it.
    Busy,
    /// It is out of order.
    Broken,
}

/// The bytes that were copied and not reported yet.
#[derive(Debug)]
pub struct Progress {
    pending: usize,
}

impl View for Progress {
    type V = int;

    closed spec fn view(&self) -> int {
        self.pending as int
    }
}

/// One copy: how many bytes, and how the display was found.
pub struct Copied {
    pub n: usize,
    pub display: DisplayState,
}

/// What is reported after a copy, where `pending` bytes were left over.
pub open spec fn reported(pending: int, c: Copied) -> int {
    if c.display == DisplayState::Free {
        pending + c.n
    } else {
        0
    }
}

/// What is left over after a copy. A display that is out of order is not caught up
/// with.
pub open spec fn left_over(pending: int, c: Copied) -> int {
    match c.display {
        DisplayState::Free => 0,
        DisplayState::Busy => pending + c.n,
        DisplayState::Broken => pending,
    }
}

/// What is left over after copies, one after the other.
pub open spec fn left_after(copies: Seq<Copied>) -> int
    decreases copies.len(),
{
    if copies.len() == 0 {
        0
    } else {
        left_over(left_after(copies.drop_last()), copies.last())
    }
}

/// All that is reported of copies, one after the other.
pub open spec fn reported_after(copies: Seq<Copied>) -> int
    decreases copies.len(),
{
    if copies.len() == 0 {
        0
    } else {
        reported_after(copies.drop_last()) + reported(
            left_after(copies.drop_last()),
            copies.last(),
        )
    }
}

/// All that is copied while the display is in order.
pub open spec fn copied_after(copies: Seq<Copied>) -> int
    decreases copies.len(),
{
    if copies.len() == 0 {
        0
    } else {
        copied_after(copies.drop_last()) + if copies.last().display == DisplayState::Broken {
            0
        } else {
            copies.last().n as int
        }
    }
}

/// Nothing is lost: what was copied is reported or left over.
pub proof fn law_progress(copies: Seq<Copied>)
    ensures
        reported_after(copies) + left_after(copies) == copied_after(copies),
    decreases copies.len(),
{
    if copies.len() > 0 {
        law_progress(copies.drop_last());
    }
}

impl Progress {
    /// Nothing was copied yet.
    pub fn new() -> (progress: Progress)
        ensures
            progress@ == 0,
    {
        Progress { pending: 0 }
    }

    /// The bytes that were copied and not reported yet.
    pub fn pending(&self) -> (n: usize)
        ensures
            n == self@,
    {
        self.pending
    }

    /// Counts `n` bytes as copied, and says how many to report: none while the
    /// display cannot be had.
    pub fn advance(&mut self, n: usize, display: DisplayState) -> (report: Option<usize>)
        requires
            old(self)@ + n <= usize::MAX,
        ensures
            final(self)@ == left_over(old(self)@, Copied { n, display }),
            match display {
                DisplayState::Free => report == Some((old(self)@ + n) as usize) && final(self)@
                    == 0,
                DisplayState::Busy => report is None && final(self)@ == old(self)@ + n,
                DisplayState::Broken => report is None && final(self)@ == old(self)@,
            },
            match report {
                Some(r) => display == DisplayState::Free && r == reported(
                    old(self)@,
                    Copied { n, display },
                ),
                None => display != DisplayState::Free,
            },
    {
        match display {
            DisplayState::Free => {
                let report: usize = n + self.pending;
                self.pending = 0;
                Some(report)
            },
            DisplayState::Busy => {
                self.pending = self.pending + n;
                None
            },
            DisplayState::Broken => None,
        }
    }
}

impl Default for Progress {
    /// Nothing was copied yet.
    fn default() -> (progress: Progress)
        ensures
            progress@ == 0,
    {
        Progress::new()
    }
}

} // verus!
