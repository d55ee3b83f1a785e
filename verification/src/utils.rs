//! Small utility types shared by the rest of the crate.
use vstd::prelude::*;
use vstd::std_specs::convert::FromSpecImpl;
use vstd::std_specs::ops::AddSpecImpl;

verus! {

/// A simple wrapper around a counter which increments after each access.
#[derive(Debug)]
pub struct AutoIncrementing {
    counter: usize,
}

impl AutoIncrementing {
    /// The value the next call of `get` hands out.
    pub closed spec fn value(&self) -> nat {
        self.counter as nat
    }

    /// The value fits a `usize`.
    pub proof fn lemma_value_bound(&self)
        ensures
            self.value() <= usize::MAX,
    {
    }

    /// Creates a new `AutoIncrementing` value starting at 0.
    pub fn new() -> (r: Self)
        ensures
            r.value() == 0,
    {
        AutoIncrementing { counter: 0 }
    }

    /// Creates a new `AutoIncrementing` value starting at an arbitrary point.
    pub fn new_with_start(start: usize) -> (r: Self)
        ensures
            r.value() == start,
    {
        AutoIncrementing { counter: start }
    }

    /// Gets the underlying value and increments self.
    pub fn get(&mut self) -> (r: usize)
        requires
            old(self).value() < usize::MAX,
        ensures
            r == old(self).value(),
            final(self).value() == old(self).value() + 1,
    {
        let ret = self.counter;
        self.counter = self.counter + 1;
        ret
    }

    /// Gets the underlying value without incrementing.
    pub fn peek(&self) -> (r: usize)
        ensures
            r == self.value(),
    {
        self.counter
    }
}

impl Default for AutoIncrementing {
    fn default() -> (r: Self)
        ensures
            r.value() == 0,
    {
        AutoIncrementing::new()
    }
}

/// `CursorPos` is effectively an (x, y) tuple.
#[derive(Debug, Clone, Copy, PartialEq, Eq, Structural)]
pub struct CursorPos {
    /// The row the cursor is on. This is effectively the line number.
    pub row: usize,
    /// What column the cursor is on. Distance from the start of the line.
    pub col: usize,
}

impl Default for CursorPos {
    fn default() -> (r: Self)
        ensures
            r.row == 0 && r.col == 0,
    {
        CursorPos { row: 0, col: 0 }
    }
}

/// Builds a position from a `(row, col)` pair, in the order `Add` takes its offsets.
impl From<(usize, usize)> for CursorPos {
    fn from(pair: (usize, usize)) -> (r: Self) {
        CursorPos { row: pair.0, col: pair.1 }
    }
}

impl FromSpecImpl<(usize, usize)> for CursorPos {
    open spec fn obeys_from_spec() -> bool {
        true
    }

    open spec fn from_spec(v: (usize, usize)) -> CursorPos {
        CursorPos { row: v.0, col: v.1 }
    }
}

/// Shifts a position by a `(row, col)` offset.
impl core::ops::Add<(isize, isize)> for CursorPos {
    type Output = CursorPos;

    fn add(self, rhs: (isize, isize)) -> (r: CursorPos) {
        CursorPos {
            row: shift(self.row, rhs.0),
            col: shift(self.col, rhs.1),
        }
    }
}

impl AddSpecImpl<(isize, isize)> for CursorPos {
    open spec fn obeys_add_spec() -> bool {
        true
    }

    open spec fn add_req(self, rhs: (isize, isize)) -> bool {
        &&& 0 <= self.row + rhs.0 <= isize::MAX
        &&& 0 <= self.col + rhs.1 <= isize::MAX
        &&& self.row <= isize::MAX
        &&& self.col <= isize::MAX
    }

    open spec fn add_spec(self, rhs: (isize, isize)) -> CursorPos {
        CursorPos { row: (self.row + rhs.0) as usize, col: (self.col + rhs.1) as usize }
    }
}

/// `base + delta`, where both the base and the sum are non-negative and fit an `isize`.
fn shift(base: usize, delta: isize) -> (r: usize)
    requires
        base <= isize::MAX,
        0 <= base + delta <= isize::MAX,
    ensures
        r == base + delta,
{
    let b: isize = base as isize;
    (b + delta) as usize
}

} // verus!
