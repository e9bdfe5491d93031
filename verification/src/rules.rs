use vstd::prelude::*;

use crate::board::{Axis, Board};
use crate::cell::CellState;
use crate::model::{
    cnt_empty, cnt_one, cnt_zero, grid_empties, grid_refines, lemma_cnt_empty_pos,
    lemma_cnt_empty_take_step, lemma_cnt_one_take_step, lemma_cnt_zero_take_step, lemma_fill_one,
    lemma_grid_refines_refl, lemma_refines_chain_ne, lemma_transpose_transpose, transpose,
};
use crate::rules_model::{
    propagate, solve_step,
    fill_both, fill_grid, fill_line, sep_both, sep_grid, sep_line, sep_line_rec, sep_step,
    sur_both, sur_grid, sur_line, sur_line_rec, sur_step,
};

verus! {

impl Board {
    /// Fill-Majority along one axis: a line that already holds half its size
    /// of one digit has every empty cell forced to the other digit.
    pub fn fill_rows_axis(&mut self, axis: Axis) -> (r: bool)
        requires
            old(self).wf(),
        ensures
            final(self).wf(),
            old(self).same_but_map(*final(self)),
            final(self).axis_grid(axis) == fill_grid(
                old(self).axis_grid(axis),
                old(self).n(),
            ),
            grid_refines(old(self).grid(), final(self).grid()),
            r == (final(self).grid() != old(self).grid()),
    {
        let ghost b0 = *old(self);
        let ghost n = b0.n();
        let ghost g0 = b0.axis_grid(axis);
        let ghost r0 = b0.grid();
        let size = self.size;
        let mut changed = false;
        let mut c1: usize = 0;
        proof {
            lemma_grid_refines_refl(r0);
        }
        while c1 < size
            invariant
                self.wf(),
                self.size == size,
                n == size as nat,
                b0.same_but_map(*self),
                b0.wf(),
                g0 == b0.axis_grid(axis),
                r0 == b0.grid(),
                c1 <= size,
                forall|i: int|
                    0 <= i < c1 ==> #[trigger] self.axis_grid(axis)[i] == fill_line(g0[i], n),
                forall|i: int| c1 <= i < n ==> #[trigger] self.axis_grid(axis)[i] == g0[i],
                grid_refines(r0, self.grid()),
                changed == (self.grid() != r0),
            decreases size - c1,
        {
            let ghost line = self.axis_grid(axis)[c1 as int];
            proof {
                assert(line == g0[c1 as int]);
                assert(line.take(0) =~= Seq::<CellState>::empty());
            }
            let mut trues: usize = 0;
            let mut falses: usize = 0;
            let mut nones: usize = 0;
            let ghost s1 = *self;
            let mut c2: usize = 0;
            while c2 < size
                invariant
                    *self == s1,
                    self.wf(),
                    self.size == size,
                    c1 < size,
                    c2 <= size,
                    line == self.axis_grid(axis)[c1 as int],
                    line.len() == size,
                    trues == cnt_one(line.take(c2 as int)),
                    falses == cnt_zero(line.take(c2 as int)),
                    nones == cnt_empty(line.take(c2 as int)),
                    trues <= c2,
                    falses <= c2,
                    nones <= c2,
                decreases size - c2,
            {
                proof {
                    lemma_cnt_one_take_step(line, c2 as int);
                    lemma_cnt_zero_take_step(line, c2 as int);
                    lemma_cnt_empty_take_step(line, c2 as int);
                }
                match self.get_at(axis, c1, c2) {
                    CellState::Zero(_) => falses = falses + 1,
                    CellState::One(_) => trues = trues + 1,
                    CellState::Empty => nones = nones + 1,
                }
                c2 = c2 + 1;
            }
            proof {
                assert(line.take(size as int) =~= line);
            }
            if trues == size / 2 && nones != 0 {
                self.fill_line_with(axis, c1, CellState::Zero(false), Ghost(line));
                proof {
                    lemma_cnt_empty_pos(line);
                    lemma_refines_chain_ne(r0, s1.grid(), self.grid());
                }
                changed = true;
            } else if falses == size / 2 && nones != 0 {
                self.fill_line_with(axis, c1, CellState::One(false), Ghost(line));
                proof {
                    lemma_cnt_empty_pos(line);
                    lemma_refines_chain_ne(r0, s1.grid(), self.grid());
                }
                changed = true;
            } else {
                proof {
                    assert(fill_line(g0[c1 as int], n) == g0[c1 as int]);
                }
            }
            c1 = c1 + 1;
        }
        proof {
            assert(self.axis_grid(axis) =~= fill_grid(g0, n));
        }
        changed
    }

    /// Writes `v` into every empty cell of line `c1` of the chosen axis.
    /// The caller has established the Fill-Majority condition on the line.
    fn fill_line_with(&mut self, axis: Axis, c1: usize, v: CellState, Ghost(line): Ghost<Seq<CellState>>)
        requires
            old(self).wf(),
            c1 < old(self).size,
            line == old(self).axis_grid(axis)[c1 as int],
            !(v is Empty),
            cnt_empty(line) != 0,
            (v == CellState::Zero(false) && cnt_one(line) == old(self).n() / 2 && cnt_empty(line)
                != 0) || (v == CellState::One(false) && cnt_zero(line) == old(self).n() / 2
                && cnt_empty(line) != 0),
        ensures
            final(self).wf(),
            old(self).same_but_map(*final(self)),
            final(self).axis_grid(axis) == old(self).axis_grid(axis).update(
                c1 as int,
                fill_line(line, old(self).n()),
            ),
            forall|i: int|
                0 <= i < old(self).n() && i != c1 ==> #[trigger] final(self).axis_grid(axis)[i]
                    == old(self).axis_grid(axis)[i],
            grid_refines(old(self).grid(), final(self).grid()),
            final(self).grid() != old(self).grid(),
    {
        let ghost b0 = *old(self);
        let ghost n = b0.n();
        let ghost g0 = b0.axis_grid(axis);
        let ghost r0 = b0.grid();
        let size = self.size;
        let mut c2: usize = 0;
        proof {
            lemma_grid_refines_refl(r0);
        }
        while c2 < size
            invariant
                self.wf(),
                self.size == size,
                b0.same_but_map(*self),
                b0.wf(),
                g0 == b0.axis_grid(axis),
                r0 == b0.grid(),
                c1 < size,
                c2 <= size,
                n == size as nat,
                line == g0[c1 as int],
                line.len() == size,
                !(v is Empty),
                forall|j: int|
                    0 <= j < c2 ==> #[trigger] self.axis_grid(axis)[c1 as int][j] == (if line[j] is Empty {
                        v
                    } else {
                        line[j]
                    }),
                forall|j: int|
                    c2 <= j < size ==> #[trigger] self.axis_grid(axis)[c1 as int][j] == line[j],
                forall|i: int|
                    0 <= i < size && i != c1 ==> #[trigger] self.axis_grid(axis)[i] == g0[i],
                grid_refines(r0, self.grid()),
            decreases size - c2,
        {
            let c = self.get_at(axis, c1, c2);
            if matches!(c, CellState::Empty) {
                let ghost before = self.grid();
                self.set_at(axis, c1, c2, v);
                proof {
                    match axis {
                        Axis::Row => {
                            lemma_fill_one(before, n, c1 as int, c2 as int, v);
                        },
                        Axis::Col => {
                            lemma_fill_one(before, n, c2 as int, c1 as int, v);
                        },
                    }
                    lemma_refines_chain_ne(r0, before, self.grid());
                }
            }
            c2 = c2 + 1;
        }
        proof {
            crate::model::lemma_counts_total(line);
            lemma_cnt_empty_pos(line);
            let j = choose|j: int| 0 <= j < line.len() && (#[trigger] line[j]) is Empty;
            assert(self.axis_grid(axis)[c1 as int][j] == v);
            assert(self.grid() != r0) by {
                if self.grid() == r0 {
                    assert(self.axis_grid(axis) == g0);
                    assert(g0[c1 as int][j] == line[j]);
                }
            }
            assert(size % 2 == 0);
            assert(line.len() == n);
            if v is Zero {
                assert(cnt_one(line) == n / 2 && cnt_empty(line) != 0);
                assert forall|k: int| 0 <= k < n implies #[trigger] fill_line(line, n)[k] == (
                if line[k] is Empty {
                    v
                } else {
                    line[k]
                }) by {}
            } else {
                assert(cnt_zero(line) == n / 2 && cnt_empty(line) != 0);
                assert(cnt_one(line) + n / 2 + cnt_empty(line) == n);
                assert(n / 2 + n / 2 == n);
                assert(cnt_one(line) != n / 2);
                assert forall|k: int| 0 <= k < n implies #[trigger] fill_line(line, n)[k] == (
                if line[k] is Empty {
                    v
                } else {
                    line[k]
                }) by {}
            }
            assert(self.axis_grid(axis)[c1 as int] =~= fill_line(line, n));
            assert(self.axis_grid(axis) =~= g0.update(c1 as int, fill_line(line, n)));
        }
    }

    /// Fill-Majority over the rows, then over the columns.
    pub fn fill_rows(&mut self) -> (r: bool)
        requires
            old(self).wf(),
        ensures
            final(self).wf(),
            old(self).same_but_map(*final(self)),
            final(self).grid() == fill_both(old(self).grid(), old(self).n()),
            grid_refines(old(self).grid(), final(self).grid()),
            r == (final(self).grid() != old(self).grid()),
    {
        let ghost b0 = *old(self);
        let ghost n = b0.n();
        let ghost g0 = b0.grid();
        let r1 = self.fill_rows_axis(Axis::Row);
        let ghost g1 = self.grid();
        let r2 = self.fill_rows_axis(Axis::Col);
        let ghost g2 = self.grid();
        proof {
            assert(g1 == fill_grid(g0, n));
            assert(transpose(g2, n) == fill_grid(transpose(g1, n), n));
            lemma_transpose_transpose(g2, n);
            assert(g2 == fill_both(g0, n));
            if r1 || r2 {
                lemma_refines_chain_ne(g0, g1, g2);
            } else {
                crate::model::lemma_grid_refines_trans(g0, g1, g2);
            }
        }
        r1 || r2
    }

    /// Surround-Pairs along one axis: the cells just before and just after a
    /// pair of adjacent equal digits are forced to the other digit.
    pub fn surround_doubles_axis(&mut self, axis: Axis) -> (r: bool)
        requires
            old(self).wf(),
        ensures
            final(self).wf(),
            old(self).same_but_map(*final(self)),
            final(self).axis_grid(axis) == sur_grid(old(self).axis_grid(axis), old(self).n()),
            grid_refines(old(self).grid(), final(self).grid()),
            r == (final(self).grid() != old(self).grid()),
    {
        let ghost b0 = *old(self);
        let ghost n = b0.n();
        let ghost g0 = b0.axis_grid(axis);
        let ghost r0 = b0.grid();
        let size = self.size;
        let mut changed = false;
        let mut c1: usize = 0;
        proof {
            lemma_grid_refines_refl(r0);
        }
        while c1 < size
            invariant
                self.wf(),
                self.size == size,
                n == size as nat,
                b0.same_but_map(*self),
                b0.wf(),
                g0 == b0.axis_grid(axis),
                r0 == b0.grid(),
                c1 <= size,
                forall|i: int|
                    0 <= i < c1 ==> #[trigger] self.axis_grid(axis)[i] == sur_line(g0[i], n),
                forall|i: int| c1 <= i < n ==> #[trigger] self.axis_grid(axis)[i] == g0[i],
                grid_refines(r0, self.grid()),
                changed == (self.grid() != r0),
            decreases size - c1,
        {
            let mut last_state = CellState::Empty;
            let mut c2: usize = 0;
            while c2 < size
                invariant
                    self.wf(),
                    self.size == size,
                    n == size as nat,
                    b0.same_but_map(*self),
                    b0.wf(),
                    g0 == b0.axis_grid(axis),
                    r0 == b0.grid(),
                    c1 < size,
                    c2 <= size,
                    forall|i: int|
                        0 <= i < c1 ==> #[trigger] self.axis_grid(axis)[i] == sur_line(g0[i], n),
                    forall|i: int| c1 < i < n ==> #[trigger] self.axis_grid(axis)[i] == g0[i],
                    sur_line_rec(self.axis_grid(axis)[c1 as int], n, c2 as nat, last_state)
                        == sur_line(g0[c1 as int], n),
                    grid_refines(r0, self.grid()),
                    changed == (self.grid() != r0),
                decreases size - c2,
            {
                let ghost lpre = self.axis_grid(axis)[c1 as int];
                let ghost last0 = last_state;
                let cur = self.get_at(axis, c1, c2);
                if last_state == cur && !matches!(last_state, CellState::Empty) {
                    if c2 >= 2 {
                        let t = self.get_at(axis, c1, c2 - 2);
                        if matches!(t, CellState::Empty) {
                            let ghost before = self.grid();
                            self.set_at(axis, c1, c2 - 2, last_state.inverse());
                            proof {
                                match axis {
                                    Axis::Row => lemma_fill_one(
                                        before,
                                        n,
                                        c1 as int,
                                        c2 - 2,
                                        last0.spec_inverse(),
                                    ),
                                    Axis::Col => lemma_fill_one(
                                        before,
                                        n,
                                        c2 - 2,
                                        c1 as int,
                                        last0.spec_inverse(),
                                    ),
                                }
                                lemma_refines_chain_ne(r0, before, self.grid());
                            }
                            changed = true;
                        }
                    }
                    if c2 + 1 < size {
                        let t = self.get_at(axis, c1, c2 + 1);
                        if matches!(t, CellState::Empty) {
                            let ghost before = self.grid();
                            self.set_at(axis, c1, c2 + 1, last_state.inverse());
                            proof {
                                match axis {
                                    Axis::Row => lemma_fill_one(
                                        before,
                                        n,
                                        c1 as int,
                                        c2 + 1,
                                        last0.spec_inverse(),
                                    ),
                                    Axis::Col => lemma_fill_one(
                                        before,
                                        n,
                                        c2 + 1,
                                        c1 as int,
                                        last0.spec_inverse(),
                                    ),
                                }
                                lemma_refines_chain_ne(r0, before, self.grid());
                            }
                            changed = true;
                        }
                    }
                }
                last_state = self.get_at(axis, c1, c2);
                proof {
                    let l1 = sur_step(lpre, n, c2 as nat, last0);
                    assert(self.axis_grid(axis)[c1 as int] =~= l1);
                    assert(last_state == l1[c2 as int]);
                    assert forall|i: int|
                        c1 < i < n implies #[trigger] self.axis_grid(axis)[i] == g0[i] by {}
                }
                c2 = c2 + 1;
            }
            c1 = c1 + 1;
        }
        proof {
            assert(self.axis_grid(axis) =~= sur_grid(g0, n));
        }
        changed
    }

    /// Surround-Pairs over the rows, then over the columns.
    pub fn surround_doubles(&mut self) -> (r: bool)
        requires
            old(self).wf(),
        ensures
            final(self).wf(),
            old(self).same_but_map(*final(self)),
            final(self).grid() == sur_both(old(self).grid(), old(self).n()),
            grid_refines(old(self).grid(), final(self).grid()),
            r == (final(self).grid() != old(self).grid()),
    {
        let ghost b0 = *old(self);
        let ghost n = b0.n();
        let ghost g0 = b0.grid();
        let r1 = self.surround_doubles_axis(Axis::Row);
        let ghost g1 = self.grid();
        let r2 = self.surround_doubles_axis(Axis::Col);
        let ghost g2 = self.grid();
        proof {
            assert(g1 == sur_grid(g0, n));
            assert(transpose(g2, n) == sur_grid(transpose(g1, n), n));
            lemma_transpose_transpose(g2, n);
            assert(g2 == sur_both(g0, n));
            if r1 || r2 {
                lemma_refines_chain_ne(g0, g1, g2);
            } else {
                crate::model::lemma_grid_refines_trans(g0, g1, g2);
            }
        }
        r1 || r2
    }

    /// Separate-Gaps along one axis: two equal digits around a single empty
    /// cell force that cell to the other digit.
    pub fn separate_triples_axis(&mut self, axis: Axis) -> (r: bool)
        requires
            old(self).wf(),
        ensures
            final(self).wf(),
            old(self).same_but_map(*final(self)),
            final(self).axis_grid(axis) == sep_grid(old(self).axis_grid(axis), old(self).n()),
            grid_refines(old(self).grid(), final(self).grid()),
            r == (final(self).grid() != old(self).grid()),
    {
        let ghost b0 = *old(self);
        let ghost n = b0.n();
        let ghost g0 = b0.axis_grid(axis);
        let ghost r0 = b0.grid();
        let size = self.size;
        let mut changed = false;
        let mut c1: usize = 0;
        proof {
            lemma_grid_refines_refl(r0);
        }
        while c1 < size
            invariant
                self.wf(),
                self.size == size,
                n == size as nat,
                b0.same_but_map(*self),
                b0.wf(),
                g0 == b0.axis_grid(axis),
                r0 == b0.grid(),
                c1 <= size,
                forall|i: int|
                    0 <= i < c1 ==> #[trigger] self.axis_grid(axis)[i] == sep_line(g0[i], n),
                forall|i: int| c1 <= i < n ==> #[trigger] self.axis_grid(axis)[i] == g0[i],
                grid_refines(r0, self.grid()),
                changed == (self.grid() != r0),
            decreases size - c1,
        {
            let mut last_state = CellState::Empty;
            let mut last_last_state = CellState::Empty;
            let mut c2: usize = 0;
            while c2 < size
                invariant
                    self.wf(),
                    self.size == size,
                    n == size as nat,
                    b0.same_but_map(*self),
                    b0.wf(),
                    g0 == b0.axis_grid(axis),
                    r0 == b0.grid(),
                    c1 < size,
                    c2 <= size,
                    forall|i: int|
                        0 <= i < c1 ==> #[trigger] self.axis_grid(axis)[i] == sep_line(g0[i], n),
                    forall|i: int| c1 < i < n ==> #[trigger] self.axis_grid(axis)[i] == g0[i],
                    sep_line_rec(
                        self.axis_grid(axis)[c1 as int],
                        n,
                        c2 as nat,
                        last_state,
                        last_last_state,
                    ) == sep_line(g0[c1 as int], n),
                    c2 >= 1 ==> last_state == self.axis_grid(axis)[c1 as int][c2 - 1],
                    c2 == 0 ==> last_state is Empty && last_last_state is Empty,
                    c2 == 1 ==> last_last_state is Empty,
                    grid_refines(r0, self.grid()),
                    changed == (self.grid() != r0),
                decreases size - c2,
            {
                let ghost lpre = self.axis_grid(axis)[c1 as int];
                let ghost last0 = last_state;
                let ghost lastlast0 = last_last_state;
                let cur = self.get_at(axis, c1, c2);
                if last_last_state == cur && !matches!(last_last_state, CellState::Empty)
                    && matches!(last_state, CellState::Empty) {
                    let ghost before = self.grid();
                    self.set_at(axis, c1, c2 - 1, last_last_state.inverse());
                    proof {
                        match axis {
                            Axis::Row => lemma_fill_one(
                                before,
                                n,
                                c1 as int,
                                c2 - 1,
                                lastlast0.spec_inverse(),
                            ),
                            Axis::Col => lemma_fill_one(
                                before,
                                n,
                                c2 - 1,
                                c1 as int,
                                lastlast0.spec_inverse(),
                            ),
                        }
                        lemma_refines_chain_ne(r0, before, self.grid());
                    }
                    changed = true;
                }
                last_last_state = last_state;
                last_state = self.get_at(axis, c1, c2);
                proof {
                    let l1 = sep_step(lpre, n, c2 as nat, last0, lastlast0);
                    assert(self.axis_grid(axis)[c1 as int] =~= l1);
                    assert(last_state == l1[c2 as int]);
                    assert forall|i: int|
                        c1 < i < n implies #[trigger] self.axis_grid(axis)[i] == g0[i] by {}
                }
                c2 = c2 + 1;
            }
            c1 = c1 + 1;
        }
        proof {
            assert(self.axis_grid(axis) =~= sep_grid(g0, n));
        }
        changed
    }

    /// The rule-engine fixpoint in the order the solvability oracle runs it:
    /// Surround-Pairs, Separate-Gaps, Fill-Majority, over and over until a
    /// full round reports no change. The result is `propagate` of the input;
    /// in particular the fixpoint is idempotent: on a grid where no rule
    /// fires any more (every grid this function just produced is one) a
    /// second run changes nothing.
    pub fn run_rules(&mut self)
        requires
            old(self).wf(),
        ensures
            final(self).wf(),
            old(self).same_but_map(*final(self)),
            final(self).grid() == propagate(old(self).grid(), old(self).n()),
            grid_refines(old(self).grid(), final(self).grid()),
            solve_step(final(self).grid(), old(self).n()) == final(self).grid(),
            solve_step(old(self).grid(), old(self).n()) == old(self).grid() ==> final(self).grid()
                == old(self).grid(),
    {
        let ghost b0 = *old(self);
        let ghost n = b0.n();
        let ghost g0 = b0.grid();
        proof {
            lemma_grid_refines_refl(g0);
        }
        loop
            invariant
                self.wf(),
                self.size == b0.size,
                n == b0.n(),
                b0.same_but_map(*self),
                b0.wf(),
                g0 == b0.grid(),
                propagate(self.grid(), n) == propagate(g0, n),
                grid_refines(g0, self.grid()),
            ensures
                self.wf(),
                self.size == b0.size,
                b0.same_but_map(*self),
                propagate(self.grid(), n) == propagate(g0, n),
                grid_refines(g0, self.grid()),
                solve_step(self.grid(), n) == self.grid(),
            decreases grid_empties(self.grid()),
        {
            let ghost gpre = self.grid();
            let r1 = self.surround_doubles();
            let ghost ga = self.grid();
            let r2 = self.separate_triples();
            let ghost gb = self.grid();
            let r3 = self.fill_rows();
            let ghost gc = self.grid();
            proof {
                assert(gc == solve_step(gpre, n));
                if r1 || r2 || r3 {
                    if r3 {
                        crate::model::lemma_grid_refines_trans(gpre, ga, gb);
                        lemma_refines_chain_ne(gpre, gb, gc);
                    } else if r2 {
                        lemma_refines_chain_ne(gpre, ga, gb);
                        lemma_refines_chain_ne(gpre, gb, gc);
                    } else {
                        lemma_refines_chain_ne(gpre, gpre, ga);
                        lemma_refines_chain_ne(gpre, ga, gb);
                        lemma_refines_chain_ne(gpre, gb, gc);
                    }
                    assert(gc != gpre);
                    assert(propagate(gpre, n) == propagate(gc, n));
                    lemma_refines_chain_ne(g0, gpre, gc);
                    crate::model::lemma_grid_empties_refines(gpre, gc);
                } else {
                    assert(gc == gpre);
                }
            }
            if !(r1 || r2 || r3) {
                break ;
            }
        }
        proof {
            assert(propagate(self.grid(), n) == self.grid());
        }
    }

    /// Separate-Gaps over the rows, then over the columns.
    pub fn separate_triples(&mut self) -> (r: bool)
        requires
            old(self).wf(),
        ensures
            final(self).wf(),
            old(self).same_but_map(*final(self)),
            final(self).grid() == sep_both(old(self).grid(), old(self).n()),
            grid_refines(old(self).grid(), final(self).grid()),
            r == (final(self).grid() != old(self).grid()),
    {
        let ghost b0 = *old(self);
        let ghost n = b0.n();
        let ghost g0 = b0.grid();
        let r1 = self.separate_triples_axis(Axis::Row);
        let ghost g1 = self.grid();
        let r2 = self.separate_triples_axis(Axis::Col);
        let ghost g2 = self.grid();
        proof {
            assert(g1 == sep_grid(g0, n));
            assert(transpose(g2, n) == sep_grid(transpose(g1, n), n));
            lemma_transpose_transpose(g2, n);
            assert(g2 == sep_both(g0, n));
            if r1 || r2 {
                lemma_refines_chain_ne(g0, g1, g2);
            } else {
                crate::model::lemma_grid_refines_trans(g0, g1, g2);
            }
        }
        r1 || r2
    }
}

} // verus!
