use vstd::prelude::*;

verus! {

/// One cell of the grid: empty, or one of the two digits. A digit carries a
/// "locked" flag (a given the player cannot edit). The flag is transport-only:
/// equality and every deduction rule ignore it.
#[derive(Copy, Clone, Debug)]
pub enum CellState {
    Empty,
    Zero(bool),
    One(bool),
}

impl CellState {
    /// Value-level equality: the locked flag is ignored.
    pub open spec fn same_val(self, other: CellState) -> bool {
        match (self, other) {
            (CellState::Empty, CellState::Empty) => true,
            (CellState::Zero(_), CellState::Zero(_)) => true,
            (CellState::One(_), CellState::One(_)) => true,
            _ => false,
        }
    }

    pub open spec fn spec_inverse(self) -> CellState {
        match self {
            CellState::Empty => CellState::Empty,
            CellState::Zero(_) => CellState::One(false),
            CellState::One(_) => CellState::Zero(false),
        }
    }

    pub open spec fn spec_is_locked(self) -> bool {
        match self {
            CellState::Empty => false,
            CellState::Zero(b) => b,
            CellState::One(b) => b,
        }
    }

    /// The same value with its digit marked as a given.
    pub open spec fn spec_lock(self) -> CellState {
        match self {
            CellState::Empty => CellState::Empty,
            CellState::Zero(_) => CellState::Zero(true),
            CellState::One(_) => CellState::One(true),
        }
    }

    pub open spec fn spec_next(self) -> CellState {
        match self {
            CellState::Empty => CellState::Zero(false),
            CellState::Zero(_) => CellState::One(false),
            CellState::One(_) => CellState::Empty,
        }
    }

    pub open spec fn spec_prev(self) -> CellState {
        match self {
            CellState::Empty => CellState::One(false),
            CellState::Zero(_) => CellState::Empty,
            CellState::One(_) => CellState::Zero(false),
        }
    }

    pub fn from_bool(b: bool) -> (r: Self)
        ensures
            r == (if b { CellState::One(false) } else { CellState::Zero(false) }),
    {
        if b {
            CellState::One(false)
        } else {
            CellState::Zero(false)
        }
    }

    /// The value a cell cycles to on a forward click.
    pub fn next(&self) -> (r: Self)
        ensures
            r == self.spec_next(),
    {
        match self {
            CellState::Empty => CellState::Zero(false),
            CellState::Zero(_) => CellState::One(false),
            CellState::One(_) => CellState::Empty,
        }
    }

    /// The value a cell cycles to on a backward click.
    pub fn prev(&self) -> (r: Self)
        ensures
            r == self.spec_prev(),
    {
        match self {
            CellState::Empty => CellState::One(false),
            CellState::Zero(_) => CellState::Empty,
            CellState::One(_) => CellState::Zero(false),
        }
    }

    /// The opposite digit (unlocked); an empty cell has no opposite.
    pub fn inverse(&self) -> (r: Self)
        ensures
            r == self.spec_inverse(),
    {
        match self {
            CellState::Empty => CellState::Empty,
            CellState::Zero(_) => CellState::One(false),
            CellState::One(_) => CellState::Zero(false),
        }
    }

    pub fn is_locked(&self) -> (r: bool)
        ensures
            r == self.spec_is_locked(),
    {
        match self {
            CellState::Empty => false,
            CellState::Zero(b) => *b,
            CellState::One(b) => *b,
        }
    }
}

impl PartialEq for CellState {
    /// Equality compares the value only; the locked flag is ignored.
    fn eq(&self, other: &Self) -> (r: bool) {
        match (self, other) {
            (CellState::Empty, CellState::Empty) => true,
            (CellState::Zero(_), CellState::Zero(_)) => true,
            (CellState::One(_), CellState::One(_)) => true,
            _ => false,
        }
    }
}

impl vstd::std_specs::cmp::PartialEqSpecImpl for CellState {
    open spec fn obeys_eq_spec() -> bool {
        true
    }

    open spec fn eq_spec(&self, other: &CellState) -> bool {
        self.same_val(*other)
    }
}

} // verus!
