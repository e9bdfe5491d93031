use vstd::prelude::*;

use crate::cell::CellState;
use crate::model::{
    cnt_empty, grid_complete, grid_empties, is_grid, lemma_cnt_empty_take_step,
    lemma_grid_empties_full, lemma_grid_empties_take_step, lemma_transpose_update, line_complete,
    transpose, update2,
};

verus! {

/// Which way a line runs: a row, or a column (a row of the transposed grid).
/// Every rule is written once over the lines of one axis and applied twice.
#[derive(Copy, Clone, Debug)]
pub enum Axis {
    Row,
    Col,
}

/// A rectangular region of the grid, in cells: the highlight the validity
/// scan hands to a caller.
#[derive(Copy, Clone, Debug, PartialEq, Eq, Structural)]
pub struct Region {
    pub x: usize,
    pub y: usize,
    pub w: usize,
    pub h: usize,
}

/// The up-to-two regions the validity scan reports: a duplicate-line
/// conflict names both offending lines, every other violation one region.
#[derive(Copy, Clone, Debug)]
pub struct ErrorPair {
    pub first: Option<Region>,
    pub second: Option<Region>,
}

impl ErrorPair {
    pub open spec fn is_clear(self) -> bool {
        self.first is None && self.second is None
    }

    pub fn clear() -> (r: ErrorPair)
        ensures
            r.is_clear(),
    {
        ErrorPair { first: None, second: None }
    }
}

/// The playing grid with the flags the surrounding application reads. The
/// engine owns `size` and `map`; `id` tags the board for the generation
/// dispatcher, so a stale generated grid can be recognised and discarded.
#[derive(Clone, Debug)]
pub struct Board {
    pub id: usize,
    pub is_won: bool,
    pub is_valid: bool,
    pub is_generating: bool,
    pub size: usize,
    pub map: Vec<Vec<CellState>>,
    pub error: ErrorPair,
    pub hint: Option<(usize, usize)>,
}

impl Board {
    /// The mathematical value of the grid: a sequence of rows.
    pub open spec fn grid(self) -> Seq<Seq<CellState>> {
        self.map@.map_values(|r: Vec<CellState>| r@)
    }

    pub open spec fn n(self) -> nat {
        self.size as nat
    }

    /// The structural invariant: an even size of at least two, small enough
    /// that a cell count fits a `u32`, and a square map.
    pub open spec fn wf(self) -> bool {
        &&& 2 <= self.size
        &&& self.size % 2 == 0
        &&& self.size <= 0xFFFF
        &&& is_grid(self.grid(), self.n())
    }

    /// The lines of the chosen axis, always as a sequence of rows.
    pub open spec fn axis_grid(self, axis: Axis) -> Seq<Seq<CellState>> {
        match axis {
            Axis::Row => self.grid(),
            Axis::Col => transpose(self.grid(), self.n()),
        }
    }

    /// All fields except the map agree.
    pub open spec fn same_but_map(self, other: Board) -> bool {
        &&& self.id == other.id
        &&& self.is_won == other.is_won
        &&& self.is_valid == other.is_valid
        &&& self.is_generating == other.is_generating
        &&& self.size == other.size
        &&& self.error == other.error
        &&& self.hint == other.hint
    }

    /// All fields except the hint agree (the map is compared separately).
    pub open spec fn same_but_hint(self, other: Board) -> bool {
        &&& self.id == other.id
        &&& self.is_won == other.is_won
        &&& self.is_valid == other.is_valid
        &&& self.is_generating == other.is_generating
        &&& self.size == other.size
        &&& self.error == other.error
    }

    /// All fields except the map and the two scan results agree.
    pub open spec fn same_but_map_flags(self, other: Board) -> bool {
        &&& self.id == other.id
        &&& self.is_generating == other.is_generating
        &&& self.size == other.size
        &&& self.hint == other.hint
    }

    pub fn new(size: usize, id: usize, will_generate: bool) -> (r: Board)
        requires
            2 <= size,
            size % 2 == 0,
            size <= 0xFFFF,
        ensures
            r.wf(),
            r.size == size,
            r.id == id,
            r.is_generating == will_generate,
            r.is_won == false,
            r.is_valid == true,
            r.error.is_clear(),
            r.hint == None::<(usize, usize)>,
            forall|i: int, j: int| 0 <= i < size && 0 <= j < size ==> r.grid()[i][j] is Empty,
    {
        let mut map: Vec<Vec<CellState>> = Vec::new();
        let mut y: usize = 0;
        while y < size
            invariant
                y <= size,
                map@.len() == y,
                forall|i: int| 0 <= i < y ==> (#[trigger] map@[i])@.len() == size,
                forall|i: int, j: int|
                    0 <= i < y && 0 <= j < size ==> (#[trigger] map@[i]@[j]) is Empty,
            decreases size - y,
        {
            let mut row: Vec<CellState> = Vec::new();
            let mut x: usize = 0;
            while x < size
                invariant
                    x <= size,
                    row@.len() == x,
                    forall|j: int| 0 <= j < x ==> (#[trigger] row@[j]) is Empty,
                decreases size - x,
            {
                row.push(CellState::Empty);
                x = x + 1;
            }
            map.push(row);
            y = y + 1;
        }
        let r = Board {
            id,
            is_won: false,
            is_valid: true,
            is_generating: will_generate,
            size,
            map,
            error: ErrorPair { first: None, second: None },
            hint: None,
        };
        assert(forall|i: int|
            0 <= i < size ==> (#[trigger] r.grid()[i]).len() == size);
        r
    }

    /// The cell at line `c1`, offset `c2` of the chosen axis.
    pub fn get_at(&self, axis: Axis, c1: usize, c2: usize) -> (r: CellState)
        requires
            self.wf(),
            c1 < self.size,
            c2 < self.size,
        ensures
            r == self.axis_grid(axis)[c1 as int][c2 as int],
    {
        match axis {
            Axis::Row => self.map[c1][c2],
            Axis::Col => self.map[c2][c1],
        }
    }

    /// Writes the cell at line `c1`, offset `c2` of the chosen axis.
    pub fn set_at(&mut self, axis: Axis, c1: usize, c2: usize, v: CellState)
        requires
            old(self).wf(),
            c1 < old(self).size,
            c2 < old(self).size,
        ensures
            final(self).wf(),
            old(self).same_but_map(*final(self)),
            final(self).axis_grid(axis) == update2(
                old(self).axis_grid(axis),
                c1 as int,
                c2 as int,
                v,
            ),
            final(self).grid() == match axis {
                Axis::Row => update2(old(self).grid(), c1 as int, c2 as int, v),
                Axis::Col => update2(old(self).grid(), c2 as int, c1 as int, v),
            },
    {
        let ghost g0 = self.grid();
        let ghost n = self.n();
        let (y, x) = match axis {
            Axis::Row => (c1, c2),
            Axis::Col => (c2, c1),
        };
        proof {
            assert(self.grid()[y as int] == self.map@[y as int]@);
            assert(self.map@[y as int]@.len() == self.size);
        }
        let row = &mut self.map[y];
        let cell = &mut row[x];
        *cell = v;
        proof {
            assert(self.grid() =~= update2(g0, y as int, x as int, v)) by {
                assert forall|i: int| 0 <= i < self.map@.len() implies #[trigger] self.grid()[i]
                    =~= update2(g0, y as int, x as int, v)[i] by {}
            }
            if let Axis::Col = axis {
                lemma_transpose_update(g0, n, y as int, x as int, v);
            }
        }
    }

    /// Whether any cell of the grid is still empty.
    pub fn has_nones(&self) -> (r: bool)
        requires
            self.wf(),
        ensures
            r == !grid_complete(self.grid(), self.n()),
    {
        let mut y: usize = 0;
        while y < self.size
            invariant
                self.wf(),
                y <= self.size,
                forall|i: int| 0 <= i < y ==> line_complete(#[trigger] self.grid()[i]),
            decreases self.size - y,
        {
            let mut x: usize = 0;
            while x < self.size
                invariant
                    self.wf(),
                    y < self.size,
                    x <= self.size,
                    forall|j: int| 0 <= j < x ==> !((#[trigger] self.grid()[y as int][j]) is Empty),
                decreases self.size - x,
            {
                if matches!(self.map[y][x], CellState::Empty) {
                    return true;
                }
                x = x + 1;
            }
            y = y + 1;
        }
        false
    }

    /// The number of empty cells of the grid.
    pub fn count_nones(&self) -> (r: u32)
        requires
            self.wf(),
        ensures
            r == grid_empties(self.grid()),
    {
        let g = Ghost(self.grid());
        let mut counter: u32 = 0;
        let mut y: usize = 0;
        proof {
            assert(g@.take(0) =~= Seq::<Seq<CellState>>::empty());
        }
        while y < self.size
            invariant
                self.wf(),
                g@ == self.grid(),
                y <= self.size,
                counter == grid_empties(g@.take(y as int)),
                counter <= y * self.size,
            decreases self.size - y,
        {
            let mut x: usize = 0;
            let mut line_count: u32 = 0;
            proof {
                assert(g@[y as int].take(0) =~= Seq::<CellState>::empty());
            }
            while x < self.size
                invariant
                    self.wf(),
                    g@ == self.grid(),
                    y < self.size,
                    x <= self.size,
                    line_count == cnt_empty(g@[y as int].take(x as int)),
                    line_count <= x,
                decreases self.size - x,
            {
                proof {
                    lemma_cnt_empty_take_step(g@[y as int], x as int);
                }
                if matches!(self.map[y][x], CellState::Empty) {
                    line_count = line_count + 1;
                }
                x = x + 1;
            }
            proof {
                assert(g@[y as int].take(self.size as int) =~= g@[y as int]);
                lemma_grid_empties_take_step(g@, y as int);
                assert((y + 1) * self.size == y * self.size + self.size) by (nonlinear_arith);
                assert(y * self.size <= 0xFFFF * 0xFFFF) by (nonlinear_arith)
                    requires
                        y <= 0xFFFF,
                        self.size <= 0xFFFF,
                ;
            }
            counter = counter + line_count;
            y = y + 1;
        }
        proof {
            lemma_grid_empties_full(g@);
        }
        counter
    }

    /// Marks every determined cell as a locked given.
    pub fn lock_tiles(&mut self)
        requires
            old(self).wf(),
        ensures
            final(self).wf(),
            old(self).same_but_map(*final(self)),
            forall|i: int, j: int|
                0 <= i < old(self).size && 0 <= j < old(self).size ==> final(self).grid()[i][j]
                    == (#[trigger] old(self).grid()[i][j]).spec_lock(),
    {
        let size = self.size;
        let ghost g0 = self.grid();
        let mut y: usize = 0;
        while y < size
            invariant
                self.wf(),
                self.size == size,
                old(self).same_but_map(*self),
                g0 == old(self).grid(),
                y <= size,
                forall|i: int, j: int|
                    0 <= i < y && 0 <= j < size ==> self.grid()[i][j] == (#[trigger] g0[i][j]).spec_lock(),
                forall|i: int, j: int|
                    y <= i < size && 0 <= j < size ==> self.grid()[i][j] == #[trigger] g0[i][j],
            decreases size - y,
        {
            let mut x: usize = 0;
            while x < size
                invariant
                    self.wf(),
                    self.size == size,
                    old(self).same_but_map(*self),
                    g0 == old(self).grid(),
                    y < size,
                    x <= size,
                    forall|i: int, j: int|
                        0 <= i < y && 0 <= j < size ==> self.grid()[i][j] == (
                        #[trigger] g0[i][j]).spec_lock(),
                    forall|j: int|
                        0 <= j < x ==> self.grid()[y as int][j] == (
                        #[trigger] g0[y as int][j]).spec_lock(),
                    forall|j: int| x <= j < size ==> self.grid()[y as int][j] == #[trigger] g0[y as int][j],
                    forall|i: int, j: int|
                        y < i < size && 0 <= j < size ==> self.grid()[i][j] == #[trigger] g0[i][j],
                decreases size - x,
            {
                let c = self.map[y][x];
                let locked = match c {
                    CellState::Zero(_) => CellState::Zero(true),
                    CellState::One(_) => CellState::One(true),
                    CellState::Empty => CellState::Empty,
                };
                self.set_at(Axis::Row, y, x, locked);
                x = x + 1;
            }
            y = y + 1;
        }
    }
}

} // verus!
