use vstd::prelude::*;

use crate::board::{Axis, Board};
use crate::cell::CellState;
use crate::model::{
    cnt_one, cnt_zero, grid_complete, grid_nonempty, grid_ok, grid_refines, lemma_clear_one,
    lemma_cnt_one_pos, lemma_cnt_one_take_step, lemma_cnt_zero_pos, lemma_cnt_zero_take_step,
    lemma_grid_refines_refl, lemma_grid_refines_trans, lemma_refines_chain_ne,
    lemma_transpose_transpose, transpose,
};
use crate::rng::rand_below;
use crate::rules_model::{
    clear_ones, clear_zeros, defill_line_post, desep_grid, desep_line, desep_line_rec, desep_step,
    desur_grid, desur_line, desur_line_rec, desur_step,
};

verus! {

impl Board {
    /// The inverse of Separate-Gaps: where three determined cells stand in a
    /// row and the outer two are equal, clears the middle one with the given
    /// probability, so a forward pass can force it again. At one hundred
    /// percent the pass is deterministic and produces exactly its model.
    pub fn deseparate_triples_axis(
        &mut self,
        axis: Axis,
        rng: &mut rand::rngs::StdRng,
        percent: u32,
    ) -> (r: bool)
        requires
            old(self).wf(),
            percent <= 100,
        ensures
            final(self).wf(),
            old(self).same_but_map(*final(self)),
            grid_refines(final(self).grid(), old(self).grid()),
            r == (final(self).grid() != old(self).grid()),
            grid_nonempty(old(self).grid(), old(self).n()) ==> grid_nonempty(
                final(self).grid(),
                old(self).n(),
            ),
            percent == 100 ==> final(self).axis_grid(axis) == desep_grid(
                old(self).axis_grid(axis),
                old(self).n(),
            ),
    {
        let ghost b0 = *old(self);
        let ghost n = b0.n();
        let ghost r0 = b0.grid();
        let ghost g0 = b0.axis_grid(axis);
        let size = self.size;
        let mut changed = false;
        let mut c1: usize = 0;
        proof {
            lemma_grid_refines_refl(r0);
        }
        while c1 < size
            invariant
                self.wf(),
                self.size == size,
                n == size as nat,
                b0.same_but_map(*self),
                b0.wf(),
                r0 == b0.grid(),
                g0 == b0.axis_grid(axis),
                c1 <= size,
                grid_refines(self.grid(), r0),
                changed == (self.grid() != r0),
                grid_nonempty(r0, n) ==> grid_nonempty(self.grid(), n),
                forall|i: int| c1 <= i < n ==> #[trigger] self.axis_grid(axis)[i] == g0[i],
                percent == 100 ==> forall|i: int|
                    0 <= i < c1 ==> #[trigger] self.axis_grid(axis)[i] == desep_line(g0[i], n),
            decreases size - c1,
        {
            let mut last_state = CellState::Empty;
            let mut last_last_state = CellState::Empty;
            let mut c2: usize = 0;
            while c2 < size
                invariant
                    self.wf(),
                    self.size == size,
                    n == size as nat,
                    b0.same_but_map(*self),
                    b0.wf(),
                    r0 == b0.grid(),
                    g0 == b0.axis_grid(axis),
                    c1 < size,
                    c2 <= size,
                    c2 == 0 ==> last_last_state is Empty && last_state is Empty,
                    c2 == 1 ==> last_last_state is Empty,
                    c2 >= 1 ==> last_state == self.axis_grid(axis)[c1 as int][c2 - 1],
                    grid_refines(self.grid(), r0),
                    changed == (self.grid() != r0),
                    grid_nonempty(r0, n) ==> grid_nonempty(self.grid(), n),
                    forall|i: int| c1 < i < n ==> #[trigger] self.axis_grid(axis)[i] == g0[i],
                    percent == 100 ==> forall|i: int|
                        0 <= i < c1 ==> #[trigger] self.axis_grid(axis)[i] == desep_line(g0[i], n),
                    percent == 100 ==> desep_line_rec(
                        self.axis_grid(axis)[c1 as int],
                        n,
                        c2 as nat,
                        last_state,
                        last_last_state,
                    ) == desep_line(g0[c1 as int], n),
                decreases size - c2,
            {
                let ghost lpre = self.axis_grid(axis)[c1 as int];
                let ghost last0 = last_state;
                let ghost lastlast0 = last_last_state;
                let cur = self.get_at(axis, c1, c2);
                if last_last_state == cur && !matches!(last_last_state, CellState::Empty)
                    && !matches!(last_state, CellState::Empty) && rand_below(rng, 100) < percent
                     as usize {
                    let ghost before = self.grid();
                    self.set_at(axis, c1, c2 - 1, CellState::Empty);
                    proof {
                        match axis {
                            Axis::Row => {
                                assert(before[c1 as int][c2 - 1] == lpre[c2 - 1]);
                                lemma_clear_one(before, n, c1 as int, c2 - 1);
                            },
                            Axis::Col => {
                                assert(before[c2 - 1][c1 as int] == lpre[c2 - 1]);
                                lemma_clear_one(before, n, c2 - 1, c1 as int);
                            },
                        }
                        lemma_refines_chain_ne(self.grid(), before, r0);
                        assert(!(self.axis_grid(axis)[c1 as int][c2 as int] is Empty));
                        match axis {
                            Axis::Row => {
                                assert(!(self.grid()[c1 as int][c2 as int] is Empty));
                            },
                            Axis::Col => {
                                assert(self.axis_grid(axis)[c1 as int][c2 as int] == self.grid()[c2 as int][c1 as int]);
                            },
                        }
                        assert(grid_nonempty(self.grid(), n));
                    }
                    last_state = CellState::Empty;
                    changed = true;
                }
                last_last_state = last_state;
                last_state = self.get_at(axis, c1, c2);
                proof {
                    if percent == 100 {
                        let l1 = desep_step(lpre, n, c2 as nat, last0, lastlast0);
                        assert(self.axis_grid(axis)[c1 as int] =~= l1);
                        assert(last_state == l1[c2 as int]);
                    }
                    assert forall|i: int|
                        c1 < i < n implies #[trigger] self.axis_grid(axis)[i] == g0[i] by {}
                }
                c2 = c2 + 1;
            }
            proof {
                if percent == 100 {
                    assert(desep_line_rec(
                        self.axis_grid(axis)[c1 as int],
                        n,
                        size as nat,
                        last_state,
                        last_last_state,
                    ) == self.axis_grid(axis)[c1 as int]);
                }
            }
            c1 = c1 + 1;
        }
        proof {
            if percent == 100 {
                assert(self.axis_grid(axis) =~= desep_grid(g0, n));
            }
        }
        changed
    }

    /// The inverse of Separate-Gaps over the rows, then over the columns.
    pub fn deseparate_triples(&mut self, rng: &mut rand::rngs::StdRng, percent: u32) -> (r: bool)
        requires
            old(self).wf(),
            percent <= 100,
        ensures
            final(self).wf(),
            old(self).same_but_map(*final(self)),
            grid_refines(final(self).grid(), old(self).grid()),
            r == (final(self).grid() != old(self).grid()),
            grid_nonempty(old(self).grid(), old(self).n()) ==> grid_nonempty(
                final(self).grid(),
                old(self).n(),
            ),
            percent == 100 ==> final(self).grid() == transpose(
                desep_grid(transpose(desep_grid(old(self).grid(), old(self).n()), old(self).n()), old(self).n()),
                old(self).n(),
            ),
    {
        let ghost n = self.n();
        let ghost g0 = self.grid();
        let r1 = self.deseparate_triples_axis(Axis::Row, rng, percent);
        let ghost g1 = self.grid();
        let r2 = self.deseparate_triples_axis(Axis::Col, rng, percent);
        proof {
            if r1 || r2 {
                lemma_refines_chain_ne(self.grid(), g1, g0);
            } else {
                lemma_grid_refines_trans(self.grid(), g1, g0);
            }
            if percent == 100 {
                lemma_transpose_transpose(self.grid(), n);
            }
        }
        r1 || r2
    }

    /// The inverse of Surround-Pairs: around a pair of adjacent equal
    /// digits, clears the cells just before and just after it, whatever they
    /// held, with the given probability. At one hundred percent the pass is
    /// deterministic and produces exactly its model; its report can still
    /// overstate, since clearing an already empty cell counts as a change.
    pub fn desurround_doubles_axis(
        &mut self,
        axis: Axis,
        rng: &mut rand::rngs::StdRng,
        percent: u32,
    ) -> (r: bool)
        requires
            old(self).wf(),
            percent <= 100,
        ensures
            final(self).wf(),
            old(self).same_but_map(*final(self)),
            grid_refines(final(self).grid(), old(self).grid()),
            !r ==> final(self).grid() == old(self).grid(),
            grid_nonempty(old(self).grid(), old(self).n()) ==> grid_nonempty(
                final(self).grid(),
                old(self).n(),
            ),
            percent == 100 ==> final(self).axis_grid(axis) == desur_grid(
                old(self).axis_grid(axis),
                old(self).n(),
            ),
    {
        let ghost b0 = *old(self);
        let ghost n = b0.n();
        let ghost r0 = b0.grid();
        let ghost g0 = b0.axis_grid(axis);
        let size = self.size;
        let mut changed = false;
        let mut c1: usize = 0;
        proof {
            lemma_grid_refines_refl(r0);
        }
        while c1 < size
            invariant
                self.wf(),
                self.size == size,
                n == size as nat,
                b0.same_but_map(*self),
                b0.wf(),
                r0 == b0.grid(),
                g0 == b0.axis_grid(axis),
                c1 <= size,
                grid_refines(self.grid(), r0),
                !changed ==> self.grid() == r0,
                grid_nonempty(r0, n) ==> grid_nonempty(self.grid(), n),
                forall|i: int| c1 <= i < n ==> #[trigger] self.axis_grid(axis)[i] == g0[i],
                percent == 100 ==> forall|i: int|
                    0 <= i < c1 ==> #[trigger] self.axis_grid(axis)[i] == desur_line(g0[i], n),
            decreases size - c1,
        {
            let mut last_state = CellState::Empty;
            let mut c2: usize = 0;
            while c2 < size
                invariant
                    self.wf(),
                    self.size == size,
                    n == size as nat,
                    b0.same_but_map(*self),
                    b0.wf(),
                    r0 == b0.grid(),
                    g0 == b0.axis_grid(axis),
                    c1 < size,
                    c2 <= size,
                    grid_refines(self.grid(), r0),
                    !changed ==> self.grid() == r0,
                    grid_nonempty(r0, n) ==> grid_nonempty(self.grid(), n),
                    forall|i: int| c1 < i < n ==> #[trigger] self.axis_grid(axis)[i] == g0[i],
                    percent == 100 ==> forall|i: int|
                        0 <= i < c1 ==> #[trigger] self.axis_grid(axis)[i] == desur_line(g0[i], n),
                    percent == 100 ==> desur_line_rec(
                        self.axis_grid(axis)[c1 as int],
                        n,
                        c2 as nat,
                        last_state,
                    ) == desur_line(g0[c1 as int], n),
                decreases size - c2,
            {
                let ghost lpre = self.axis_grid(axis)[c1 as int];
                let ghost last0 = last_state;
                let cur = self.get_at(axis, c1, c2);
                if last_state == cur && !matches!(last_state, CellState::Empty) && rand_below(
                    rng,
                    100,
                ) < percent as usize {
                    if c2 >= 2 {
                        let ghost before = self.grid();
                        self.set_at(axis, c1, c2 - 2, CellState::Empty);
                        proof {
                            match axis {
                                Axis::Row => lemma_clear_one(before, n, c1 as int, c2 - 2),
                                Axis::Col => lemma_clear_one(before, n, c2 - 2, c1 as int),
                            }
                            lemma_grid_refines_trans(self.grid(), before, r0);
                        }
                        changed = true;
                    }
                    if c2 + 1 < size {
                        let ghost before = self.grid();
                        self.set_at(axis, c1, c2 + 1, CellState::Empty);
                        proof {
                            match axis {
                                Axis::Row => lemma_clear_one(before, n, c1 as int, c2 + 1),
                                Axis::Col => lemma_clear_one(before, n, c2 + 1, c1 as int),
                            }
                            lemma_grid_refines_trans(self.grid(), before, r0);
                        }
                        changed = true;
                    }
                    proof {
                        assert(!(self.axis_grid(axis)[c1 as int][c2 as int] is Empty));
                        match axis {
                            Axis::Row => {
                                assert(!(self.grid()[c1 as int][c2 as int] is Empty));
                            },
                            Axis::Col => {
                                assert(self.axis_grid(axis)[c1 as int][c2 as int] == self.grid()[c2 as int][c1 as int]);
                            },
                        }
                        assert(grid_nonempty(self.grid(), n));
                    }
                }
                last_state = self.get_at(axis, c1, c2);
                proof {
                    if percent == 100 {
                        let l1 = desur_step(lpre, n, c2 as nat, last0);
                        assert(self.axis_grid(axis)[c1 as int] =~= l1);
                        assert(last_state == l1[c2 as int]);
                    }
                    assert forall|i: int|
                        c1 < i < n implies #[trigger] self.axis_grid(axis)[i] == g0[i] by {}
                }
                c2 = c2 + 1;
            }
            c1 = c1 + 1;
        }
        proof {
            if percent == 100 {
                assert(self.axis_grid(axis) =~= desur_grid(g0, n));
            }
        }
        changed
    }

    /// The inverse of Surround-Pairs over the rows, then over the columns.
    pub fn desurround_doubles(&mut self, rng: &mut rand::rngs::StdRng, percent: u32) -> (r: bool)
        requires
            old(self).wf(),
            percent <= 100,
        ensures
            final(self).wf(),
            old(self).same_but_map(*final(self)),
            grid_refines(final(self).grid(), old(self).grid()),
            !r ==> final(self).grid() == old(self).grid(),
            grid_nonempty(old(self).grid(), old(self).n()) ==> grid_nonempty(
                final(self).grid(),
                old(self).n(),
            ),
            percent == 100 ==> final(self).grid() == transpose(
                desur_grid(transpose(desur_grid(old(self).grid(), old(self).n()), old(self).n()), old(self).n()),
                old(self).n(),
            ),
    {
        let ghost n = self.n();
        let ghost g0 = self.grid();
        let r1 = self.desurround_doubles_axis(Axis::Row, rng, percent);
        let ghost g1 = self.grid();
        let r2 = self.desurround_doubles_axis(Axis::Col, rng, percent);
        proof {
            lemma_grid_refines_trans(self.grid(), g1, g0);
            if percent == 100 {
                lemma_transpose_transpose(self.grid(), n);
            }
        }
        r1 || r2
    }

    /// The inverse of Fill-Majority: in a line that is exactly balanced,
    /// clears every cell of one randomly chosen digit with the given
    /// probability, so the forward rule can restore them. At one hundred
    /// percent every balanced line loses one digit family.
    pub fn defill_row_axis(
        &mut self,
        axis: Axis,
        rng: &mut rand::rngs::StdRng,
        percent: u32,
    ) -> (r: bool)
        requires
            old(self).wf(),
            percent <= 100,
        ensures
            final(self).wf(),
            old(self).same_but_map(*final(self)),
            grid_refines(final(self).grid(), old(self).grid()),
            r == (final(self).grid() != old(self).grid()),
            grid_nonempty(old(self).grid(), old(self).n()) ==> grid_nonempty(
                final(self).grid(),
                old(self).n(),
            ),
            percent == 100 ==> forall|i: int|
                0 <= i < old(self).n() ==> defill_line_post(
                    #[trigger] old(self).axis_grid(axis)[i],
                    final(self).axis_grid(axis)[i],
                    old(self).n(),
                ),
    {
        let ghost b0 = *old(self);
        let ghost n = b0.n();
        let ghost r0 = b0.grid();
        let ghost g0 = b0.axis_grid(axis);
        let size = self.size;
        let mut changed = false;
        let mut c1: usize = 0;
        proof {
            lemma_grid_refines_refl(r0);
        }
        while c1 < size
            invariant
                self.wf(),
                self.size == size,
                n == size as nat,
                b0.same_but_map(*self),
                b0.wf(),
                r0 == b0.grid(),
                g0 == b0.axis_grid(axis),
                c1 <= size,
                grid_refines(self.grid(), r0),
                changed == (self.grid() != r0),
                grid_nonempty(r0, n) ==> grid_nonempty(self.grid(), n),
                forall|i: int| c1 <= i < n ==> #[trigger] self.axis_grid(axis)[i] == g0[i],
                percent == 100 ==> forall|i: int|
                    0 <= i < c1 ==> defill_line_post(#[trigger] g0[i], self.axis_grid(axis)[i], n),
            decreases size - c1,
        {
            let mut trues: usize = 0;
            let mut falses: usize = 0;
            let ghost line = self.axis_grid(axis)[c1 as int];
            proof {
                assert(line == g0[c1 as int]);
                assert(line.take(0) =~= Seq::<CellState>::empty());
            }
            let ghost s1 = *self;
            let mut c2: usize = 0;
            while c2 < size
                invariant
                    *self == s1,
                    self.wf(),
                    self.size == size,
                    c1 < size,
                    c2 <= size,
                    line == self.axis_grid(axis)[c1 as int],
                    line.len() == size,
                    trues == cnt_one(line.take(c2 as int)),
                    falses == cnt_zero(line.take(c2 as int)),
                    trues <= c2,
                    falses <= c2,
                decreases size - c2,
            {
                proof {
                    lemma_cnt_one_take_step(line, c2 as int);
                    lemma_cnt_zero_take_step(line, c2 as int);
                }
                match self.get_at(axis, c1, c2) {
                    CellState::Zero(_) => falses = falses + 1,
                    CellState::One(_) => trues = trues + 1,
                    CellState::Empty => {},
                }
                c2 = c2 + 1;
            }
            proof {
                assert(line.take(size as int) =~= line);
            }
            let balanced = trues == size / 2 && falses == size / 2;
            if balanced && rand_below(rng, 100) < percent as usize {
                let to_delete = CellState::from_bool(rand_below(rng, 2) == 0);
                proof {
                    if to_delete == CellState::Zero(false) {
                        lemma_cnt_one_pos(line);
                        let j = choose|j: int| 0 <= j < line.len() && (#[trigger] line[j]) is One;
                        assert(!(self.axis_grid(axis)[c1 as int][j] is Empty)
                            && !(line[j].same_val(to_delete)));
                    } else {
                        lemma_cnt_zero_pos(line);
                        let j = choose|j: int| 0 <= j < line.len() && (#[trigger] line[j]) is Zero;
                        assert(!(self.axis_grid(axis)[c1 as int][j] is Empty)
                            && !(line[j].same_val(to_delete)));
                    }
                }
                let mut c2: usize = 0;
                while c2 < size
                    invariant
                        self.wf(),
                        self.size == size,
                        n == size as nat,
                        b0.same_but_map(*self),
                        b0.wf(),
                        r0 == b0.grid(),
                        g0 == b0.axis_grid(axis),
                        c1 < size,
                        c2 <= size,
                        line == g0[c1 as int],
                        line.len() == size,
                        (to_delete == CellState::Zero(false) || to_delete == CellState::One(false)),
                        cnt_one(line) == n / 2 && cnt_zero(line) == n / 2,
                        n >= 2,
                        grid_refines(self.grid(), r0),
                        exists|j: int|
                            0 <= j < size && !((#[trigger] self.axis_grid(axis)[c1 as int][j]) is Empty)
                                && !(line[j].same_val(to_delete)),
                        forall|i: int| c1 < i < n ==> #[trigger] self.axis_grid(axis)[i] == g0[i],
                        percent == 100 ==> forall|i: int|
                            0 <= i < c1 ==> defill_line_post(
                                #[trigger] g0[i],
                                self.axis_grid(axis)[i],
                                n,
                            ),
                        forall|j: int|
                            0 <= j < c2 ==> #[trigger] self.axis_grid(axis)[c1 as int][j] == (
                            if line[j].same_val(to_delete) {
                                CellState::Empty
                            } else {
                                line[j]
                            }),
                        forall|j: int|
                            c2 <= j < size ==> #[trigger] self.axis_grid(axis)[c1 as int][j]
                                == line[j],
                    decreases size - c2,
                {
                    let c = self.get_at(axis, c1, c2);
                    if c == to_delete {
                        let ghost before = self.grid();
                        self.set_at(axis, c1, c2, CellState::Empty);
                        proof {
                            match axis {
                                Axis::Row => lemma_clear_one(before, n, c1 as int, c2 as int),
                                Axis::Col => lemma_clear_one(before, n, c2 as int, c1 as int),
                            }
                            lemma_grid_refines_trans(self.grid(), before, r0);
                        }
                    }
                    c2 = c2 + 1;
                }
                proof {
                    if to_delete == CellState::Zero(false) {
                        assert(self.axis_grid(axis)[c1 as int] =~= clear_zeros(line));
                        assert(cnt_zero(line) == n / 2 && n / 2 >= 1);
                        lemma_cnt_zero_pos(line);
                        let j = choose|j: int| 0 <= j < line.len() && (#[trigger] line[j]) is Zero;
                        assert(self.axis_grid(axis)[c1 as int][j] is Empty);
                    } else {
                        assert(self.axis_grid(axis)[c1 as int] =~= clear_ones(line));
                        assert(cnt_one(line) == n / 2 && n / 2 >= 1);
                        lemma_cnt_one_pos(line);
                        let j = choose|j: int| 0 <= j < line.len() && (#[trigger] line[j]) is One;
                        assert(self.axis_grid(axis)[c1 as int][j] is Empty);
                    }
                    assert(self.axis_grid(axis)[c1 as int] != line);
                    assert(self.grid() != r0) by {
                        if self.grid() == r0 {
                            assert(self.axis_grid(axis)[c1 as int] == g0[c1 as int]);
                        }
                    }
                    assert(defill_line_post(g0[c1 as int], self.axis_grid(axis)[c1 as int], n));
                    let jw = choose|j: int|
                        0 <= j < size && !((#[trigger] self.axis_grid(axis)[c1 as int][j]) is Empty)
                            && !(line[j].same_val(to_delete));
                    match axis {
                        Axis::Row => {
                            assert(!(self.grid()[c1 as int][jw] is Empty));
                        },
                        Axis::Col => {
                            assert(self.axis_grid(axis)[c1 as int][jw] == self.grid()[jw][c1 as int]);
                        },
                    }
                    assert(grid_nonempty(self.grid(), n));
                }
                changed = true;
            } else {
                proof {
                    if percent == 100 && !balanced {
                        assert(defill_line_post(g0[c1 as int], self.axis_grid(axis)[c1 as int], n));
                    }
                }
            }
            c1 = c1 + 1;
        }
        changed
    }

    /// The inverse of Fill-Majority over the rows, then over the columns.
    pub fn defill_rows(&mut self, rng: &mut rand::rngs::StdRng, percent: u32) -> (r: bool)
        requires
            old(self).wf(),
            percent <= 100,
        ensures
            final(self).wf(),
            old(self).same_but_map(*final(self)),
            grid_refines(final(self).grid(), old(self).grid()),
            r == (final(self).grid() != old(self).grid()),
            grid_nonempty(old(self).grid(), old(self).n()) ==> grid_nonempty(
                final(self).grid(),
                old(self).n(),
            ),
    {
        let ghost g0 = self.grid();
        let r1 = self.defill_row_axis(Axis::Row, rng, percent);
        let ghost g1 = self.grid();
        let r2 = self.defill_row_axis(Axis::Col, rng, percent);
        proof {
            if r1 || r2 {
                lemma_refines_chain_ne(self.grid(), g1, g0);
            } else {
                lemma_grid_refines_trans(self.grid(), g1, g0);
            }
        }
        r1 || r2
    }

    /// The softening pass: applies the three inverse rules at an escalating
    /// schedule of probabilities, clearing cells a forward pass could force
    /// back, then re-runs the validity scan. Cells are only cleared, never
    /// rewritten, so every solution of the input grid still extends the
    /// softened one; a grid with at least one given keeps at least one, since
    /// every clearing leaves the cells of its own pattern determined. The
    /// schedule ends with the inverse of Separate-Gaps at full probability,
    /// so the result is exactly that deterministic pass applied to whatever
    /// the earlier, random passes left.
    pub fn degenerate(&mut self, rng: &mut rand::rngs::StdRng)
        requires
            old(self).wf(),
        ensures
            final(self).wf(),
            final(self).same_but_map_flags(*old(self)),
            grid_refines(final(self).grid(), old(self).grid()),
            final(self).is_valid == grid_ok(final(self).grid(), old(self).n()),
            final(self).is_won == (final(self).is_valid && grid_complete(
                final(self).grid(),
                old(self).n(),
            )),
            (final(self).error.first is None) == final(self).is_valid,
            grid_nonempty(old(self).grid(), old(self).n()) ==> grid_nonempty(
                final(self).grid(),
                old(self).n(),
            ),
            exists|mid: Seq<Seq<CellState>>|
                #[trigger] grid_refines(mid, old(self).grid()) && final(self).grid() == transpose(
                    desep_grid(transpose(desep_grid(mid, old(self).n()), old(self).n()), old(self).n()),
                    old(self).n(),
                ),
    {
        let ghost g0 = self.grid();
        self.deseparate_triples(rng, 20);
        let ghost g1 = self.grid();
        self.desurround_doubles(rng, 20);
        proof {
            lemma_grid_refines_trans(self.grid(), g1, g0);
        }
        let ghost g2 = self.grid();
        self.defill_rows(rng, 20);
        proof {
            lemma_grid_refines_trans(self.grid(), g2, g0);
        }
        let ghost g3 = self.grid();
        self.defill_rows(rng, 100);
        proof {
            lemma_grid_refines_trans(self.grid(), g3, g0);
        }
        let ghost g4 = self.grid();
        self.desurround_doubles(rng, 40);
        proof {
            lemma_grid_refines_trans(self.grid(), g4, g0);
        }
        let ghost g5 = self.grid();
        self.deseparate_triples(rng, 50);
        proof {
            lemma_grid_refines_trans(self.grid(), g5, g0);
        }
        let ghost g6 = self.grid();
        self.desurround_doubles(rng, 100);
        proof {
            lemma_grid_refines_trans(self.grid(), g6, g0);
        }
        let ghost g7 = self.grid();
        self.deseparate_triples(rng, 100);
        proof {
            lemma_grid_refines_trans(self.grid(), g7, g0);
            assert(grid_refines(g7, g0) && self.grid() == transpose(
                desep_grid(
                    transpose(desep_grid(g7, self.n()), self.n()),
                    self.n(),
                ),
                self.n(),
            ));
        }
        self.verify_board();
    }

    /// Clears each cell independently with the given probability; the zero
    /// dial leaves the grid alone, and at one hundred percent the whole grid
    /// is cleared.
    pub fn delete_percentage(&mut self, rng: &mut rand::rngs::StdRng, percent: u32)
        requires
            old(self).wf(),
            percent <= 100,
        ensures
            final(self).wf(),
            old(self).same_but_map(*final(self)),
            grid_refines(final(self).grid(), old(self).grid()),
            percent == 100 ==> forall|i: int, j: int|
                0 <= i < old(self).n() && 0 <= j < old(self).n()
                    ==> (#[trigger] final(self).grid()[i][j]) is Empty,
            percent == 0 ==> final(self).grid() == old(self).grid(),
    {
        let ghost b0 = *old(self);
        let ghost n = b0.n();
        let ghost r0 = b0.grid();
        let size = self.size;
        let mut y: usize = 0;
        proof {
            lemma_grid_refines_refl(r0);
        }
        while y < size
            invariant
                self.wf(),
                self.size == size,
                n == size as nat,
                b0.same_but_map(*self),
                b0.wf(),
                r0 == b0.grid(),
                y <= size,
                grid_refines(self.grid(), r0),
                percent == 0 ==> self.grid() == r0,
                percent == 100 ==> forall|i: int, j: int|
                    0 <= i < y && 0 <= j < size ==> (#[trigger] self.grid()[i][j]) is Empty,
            decreases size - y,
        {
            let mut x: usize = 0;
            while x < size
                invariant
                    self.wf(),
                    self.size == size,
                    n == size as nat,
                    b0.same_but_map(*self),
                    b0.wf(),
                    r0 == b0.grid(),
                    y < size,
                    x <= size,
                    grid_refines(self.grid(), r0),
                    percent == 0 ==> self.grid() == r0,
                    percent == 100 ==> forall|i: int, j: int|
                        0 <= i < y && 0 <= j < size ==> (#[trigger] self.grid()[i][j]) is Empty,
                    percent == 100 ==> forall|j: int|
                        0 <= j < x ==> (#[trigger] self.grid()[y as int][j]) is Empty,
                decreases size - x,
            {
                if rand_below(rng, 100) < percent as usize {
                    let ghost before = self.grid();
                    self.set_at(Axis::Row, y, x, CellState::Empty);
                    proof {
                        lemma_clear_one(before, n, y as int, x as int);
                        lemma_grid_refines_trans(self.grid(), before, r0);
                    }
                }
                x = x + 1;
            }
            y = y + 1;
        }
    }

    /// Clears every cell that is empty in `other`, so that `self` carries at
    /// most the determined cells of `other`. Grids of different sizes are
    /// left untouched.
    pub fn copy_nones(&mut self, other: &Board)
        requires
            old(self).wf(),
            other.wf(),
        ensures
            final(self).wf(),
            old(self).same_but_map(*final(self)),
            other.size != old(self).size ==> *final(self) == *old(self),
            other.size == old(self).size ==> forall|i: int, j: int|
                0 <= i < old(self).n() && 0 <= j < old(self).n() ==> final(self).grid()[i][j] == (
                if other.grid()[i][j] is Empty {
                    CellState::Empty
                } else {
                    (#[trigger] old(self).grid()[i][j])
                }),
            grid_refines(final(self).grid(), old(self).grid()),
    {
        let ghost b0 = *old(self);
        let ghost n = b0.n();
        let ghost r0 = b0.grid();
        proof {
            lemma_grid_refines_refl(r0);
        }
        if other.size != self.size {
            return ;
        }
        let size = self.size;
        let mut y: usize = 0;
        while y < size
            invariant
                self.wf(),
                self.size == size,
                size == other.size,
                n == size as nat,
                b0.same_but_map(*self),
                b0.wf(),
                other.wf(),
                r0 == b0.grid(),
                y <= size,
                grid_refines(self.grid(), r0),
                forall|i: int, j: int|
                    0 <= i < y && 0 <= j < size ==> self.grid()[i][j] == (
                    if other.grid()[i][j] is Empty {
                        CellState::Empty
                    } else {
                        (#[trigger] r0[i][j])
                    }),
                forall|i: int, j: int|
                    y <= i < size && 0 <= j < size ==> self.grid()[i][j] == #[trigger] r0[i][j],
            decreases size - y,
        {
            let mut x: usize = 0;
            while x < size
                invariant
                    self.wf(),
                    self.size == size,
                    size == other.size,
                    n == size as nat,
                    b0.same_but_map(*self),
                    b0.wf(),
                    other.wf(),
                    r0 == b0.grid(),
                    y < size,
                    x <= size,
                    grid_refines(self.grid(), r0),
                    forall|i: int, j: int|
                        0 <= i < y && 0 <= j < size ==> self.grid()[i][j] == (
                        if other.grid()[i][j] is Empty {
                            CellState::Empty
                        } else {
                            (#[trigger] r0[i][j])
                        }),
                    forall|j: int|
                        0 <= j < x ==> self.grid()[y as int][j] == (
                        if other.grid()[y as int][j] is Empty {
                            CellState::Empty
                        } else {
                            (#[trigger] r0[y as int][j])
                        }),
                    forall|j: int|
                        x <= j < size ==> self.grid()[y as int][j] == #[trigger] r0[y as int][j],
                    forall|i: int, j: int|
                        y < i < size && 0 <= j < size ==> self.grid()[i][j] == #[trigger] r0[i][j],
                decreases size - x,
            {
                let oc = other.get_at(Axis::Row, y, x);
                if matches!(oc, CellState::Empty) {
                    let ghost before = self.grid();
                    self.set_at(Axis::Row, y, x, CellState::Empty);
                    proof {
                        lemma_clear_one(before, n, y as int, x as int);
                        lemma_grid_refines_trans(self.grid(), before, r0);
                    }
                }
                x = x + 1;
            }
            y = y + 1;
        }
    }
}

} // verus!
