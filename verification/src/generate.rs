use vstd::prelude::*;

use crate::board::{Axis, Board};
use crate::cell::CellState;
use crate::model::{
    cnt_empty, cnt_one, cnt_zero, grid_complete, grid_empties, grid_ok, grid_refines,
    lemma_cnt_empty_take_step, lemma_complete_balanced, lemma_fill_one, lemma_grid_empties_complete,
    lemma_grid_empties_take_step, lemma_grid_empties_update2, lemma_grid_refines_refl,
    lemma_grid_refines_trans, lemma_refines_chain_ne, transpose, update2,
};
use crate::rng::rand_below;

verus! {

/// The number of empty cells strictly before `(y, x)` in row-major order.
pub open spec fn empties_before(g: Seq<Seq<CellState>>, y: int, x: int) -> nat {
    grid_empties(g.take(y)) + cnt_empty(g[y].take(x))
}

impl Board {
    /// Clears the whole grid and re-runs the validity scan.
    pub fn reset(&mut self)
        requires
            old(self).wf(),
        ensures
            final(self).wf(),
            final(self).same_but_map_flags(*old(self)),
            forall|i: int, j: int|
                0 <= i < old(self).size && 0 <= j < old(self).size ==> final(self).grid()[i][j] is Empty,
            final(self).is_valid == grid_ok(final(self).grid(), old(self).n()),
            final(self).is_won == (final(self).is_valid && grid_complete(
                final(self).grid(),
                final(self).n(),
            )),
            (final(self).error.first is None) == final(self).is_valid,
            final(self).is_valid ==> final(self).error.second is None,
    {
        let size = self.size;
        let mut map: Vec<Vec<CellState>> = Vec::new();
        let mut y: usize = 0;
        while y < size
            invariant
                y <= size,
                map@.len() == y,
                forall|i: int| 0 <= i < y ==> (#[trigger] map@[i])@.len() == size,
                forall|i: int, j: int|
                    0 <= i < y && 0 <= j < size ==> (#[trigger] map@[i]@[j]) is Empty,
            decreases size - y,
        {
            let mut row: Vec<CellState> = Vec::new();
            let mut x: usize = 0;
            while x < size
                invariant
                    x <= size,
                    row@.len() == x,
                    forall|j: int| 0 <= j < x ==> (#[trigger] row@[j]) is Empty,
                decreases size - x,
            {
                row.push(CellState::Empty);
                x = x + 1;
            }
            map.push(row);
            y = y + 1;
        }
        self.map = map;
        proof {
            assert(forall|i: int| 0 <= i < size ==> (#[trigger] self.grid()[i]).len() == size);
        }
        self.verify_board();
    }

    /// Writes the digit for `value` into the empty cell with exactly `index`
    /// empty cells before it in row-major order. This is the verified half
    /// of random insertion: the caller draws `index` and `value`, this
    /// function places the digit.
    pub fn fill_nth_empty(&mut self, index: usize, value: bool)
        requires
            old(self).wf(),
            index < grid_empties(old(self).grid()),
        ensures
            final(self).wf(),
            old(self).same_but_map(*final(self)),
            exists|y: int, x: int|
                0 <= y < old(self).n() && 0 <= x < old(self).n() && old(self).grid()[y][x] is Empty
                    && #[trigger] empties_before(old(self).grid(), y, x) == index && final(self).grid()
                    == update2(
                    old(self).grid(),
                    y,
                    x,
                    if value {
                        CellState::One(false)
                    } else {
                        CellState::Zero(false)
                    },
                ),
            grid_refines(old(self).grid(), final(self).grid()),
            final(self).grid() != old(self).grid(),
            grid_empties(final(self).grid()) == grid_empties(old(self).grid()) - 1,
    {
        let ghost b0 = *old(self);
        let ghost n = b0.n();
        let ghost g0 = b0.grid();
        let size = self.size;
        let v = CellState::from_bool(value);
        let mut seen: usize = 0;
        let mut y: usize = 0;
        proof {
            assert(g0.take(0) =~= Seq::<Seq<CellState>>::empty());
        }
        while y < size
            invariant
                *self == b0,
                b0 == *old(self),
                self.wf(),
                self.size == size,
                n == size as nat,
                g0 == b0.grid(),
                y <= size,
                seen == grid_empties(g0.take(y as int)),
                seen <= index,
                index < grid_empties(g0),
                v == (if value {
                    CellState::One(false)
                } else {
                    CellState::Zero(false)
                }),
            decreases size - y,
        {
            let mut x: usize = 0;
            proof {
                assert(g0[y as int].take(0) =~= Seq::<CellState>::empty());
            }
            while x < size
                invariant
                    *self == b0,
                    b0 == *old(self),
                    self.wf(),
                    self.size == size,
                    n == size as nat,
                    g0 == b0.grid(),
                    y < size,
                    x <= size,
                    seen == grid_empties(g0.take(y as int)) + cnt_empty(g0[y as int].take(x as int)),
                    seen <= index,
                    index < grid_empties(g0),
                    v == (if value {
                        CellState::One(false)
                    } else {
                        CellState::Zero(false)
                    }),
                decreases size - x,
            {
                proof {
                    lemma_cnt_empty_take_step(g0[y as int], x as int);
                }
                let c = self.get_at(Axis::Row, y, x);
                if matches!(c, CellState::Empty) {
                    if seen == index {
                        self.set_at(Axis::Row, y, x, v);
                        proof {
                            lemma_fill_one(g0, n, y as int, x as int, v);
                            lemma_grid_empties_update2(g0, y as int, x as int, v);
                            assert(g0[y as int][x as int] is Empty
                                && empties_before(g0, y as int, x as int) == index && self.grid()
                                == update2(
                                g0,
                                y as int,
                                x as int,
                                if value {
                                    CellState::One(false)
                                } else {
                                    CellState::Zero(false)
                                },
                            ));
                        }
                        return ;
                    }
                    seen = seen + 1;
                }
                x = x + 1;
            }
            proof {
                assert(g0[y as int].take(size as int) =~= g0[y as int]);
                lemma_grid_empties_take_step(g0, y as int);
            }
            y = y + 1;
        }
        proof {
            assert(g0.take(size as int) =~= g0);
            assert(false);
        }
        unreached()
    }

    /// Fills one empty cell, chosen uniformly among the empty cells, with a
    /// uniformly random digit. On a complete grid this does nothing.
    pub fn insert_random(&mut self, rng: &mut rand::rngs::StdRng)
        requires
            old(self).wf(),
        ensures
            final(self).wf(),
            old(self).same_but_map(*final(self)),
            grid_complete(old(self).grid(), old(self).n()) ==> final(self).grid() == old(
                self,
            ).grid(),
            !grid_complete(old(self).grid(), old(self).n()) ==> grid_refines(
                old(self).grid(),
                final(self).grid(),
            ) && final(self).grid() != old(self).grid() && grid_empties(final(self).grid())
                == grid_empties(old(self).grid()) - 1,
    {
        let nones = self.count_nones();
        proof {
            lemma_grid_empties_complete(self.grid(), self.n());
        }
        if nones == 0 {
            return ;
        }
        let index = rand_below(rng, nones as usize);
        let value = rand_below(rng, 2) == 0;
        self.fill_nth_empty(index, value);
    }

    /// Fills the grid completely: runs the three rules to a fixpoint, and
    /// whenever the rules are exhausted inserts one random digit, until no
    /// empty cell is left. Ends with a validity scan, so `is_won` and
    /// `is_valid` match the produced grid. Determined cells are never
    /// rewritten, so the givens of a partial grid survive.
    pub fn generate(&mut self, rng: &mut rand::rngs::StdRng)
        requires
            old(self).wf(),
        ensures
            final(self).wf(),
            final(self).same_but_map_flags(*old(self)),
            grid_refines(old(self).grid(), final(self).grid()),
            grid_complete(final(self).grid(), old(self).n()),
            final(self).is_valid == grid_ok(final(self).grid(), old(self).n()),
            final(self).is_won == final(self).is_valid,
            (final(self).error.first is None) == final(self).is_valid,
    {
        let ghost b0 = *old(self);
        let ghost n = b0.n();
        let ghost g0 = b0.grid();
        proof {
            lemma_grid_refines_refl(g0);
        }
        loop
            invariant
                self.wf(),
                self.size == b0.size,
                n == b0.n(),
                b0.same_but_map(*self),
                b0.wf(),
                g0 == b0.grid(),
                grid_refines(g0, self.grid()),
            ensures
                self.wf(),
                self.size == b0.size,
                b0.same_but_map(*self),
                grid_refines(g0, self.grid()),
                grid_complete(self.grid(), n),
            decreases grid_empties(self.grid()),
        {
            let more = self.has_nones();
            if !more {
                break ;
            }
            let ghost gs = self.grid();
            self.run_rules_gen();
            let ghost gm = self.grid();
            self.insert_random(rng);
            proof {
                lemma_grid_refines_trans(g0, gs, gm);
                lemma_grid_empties_complete(gs, n);
                crate::model::lemma_grid_empties_refines(gs, gm);
                if grid_complete(gm, n) {
                    lemma_grid_empties_complete(gm, n);
                } else {
                    lemma_grid_refines_trans(g0, gm, self.grid());
                }
            }
        }
        self.verify_board();
    }

    /// One round of the rule engine to a fixpoint, in the order the
    /// generator applies the rules: Fill-Majority, Surround-Pairs,
    /// Separate-Gaps.
    fn run_rules_gen(&mut self)
        requires
            old(self).wf(),
        ensures
            final(self).wf(),
            old(self).same_but_map(*final(self)),
            grid_refines(old(self).grid(), final(self).grid()),
    {
        let ghost b0 = *old(self);
        let ghost n = b0.n();
        let ghost g0 = b0.grid();
        proof {
            lemma_grid_refines_refl(g0);
        }
        loop
            invariant
                self.wf(),
                self.size == b0.size,
                n == b0.n(),
                b0.same_but_map(*self),
                b0.wf(),
                g0 == b0.grid(),
                grid_refines(g0, self.grid()),
            ensures
                self.wf(),
                self.size == b0.size,
                b0.same_but_map(*self),
                grid_refines(g0, self.grid()),
            decreases grid_empties(self.grid()),
        {
            let ghost gpre = self.grid();
            let r1 = self.fill_rows();
            let ghost ga = self.grid();
            let r2 = self.surround_doubles();
            let ghost gb = self.grid();
            let r3 = self.separate_triples();
            let ghost gc = self.grid();
            proof {
                lemma_grid_refines_trans(gpre, ga, gb);
                lemma_grid_refines_trans(gpre, gb, gc);
                lemma_grid_refines_trans(g0, gpre, gc);
                if r1 || r2 || r3 {
                    if r3 {
                        lemma_refines_chain_ne(gpre, gb, gc);
                    } else if r2 {
                        lemma_refines_chain_ne(gpre, ga, gb);
                        lemma_refines_chain_ne(gpre, gb, gc);
                    } else {
                        lemma_refines_chain_ne(gpre, ga, gb);
                        lemma_refines_chain_ne(gpre, gb, gc);
                    }
                    crate::model::lemma_grid_empties_refines(gpre, gc);
                }
            }
            if !(r1 || r2 || r3) {
                break ;
            }
        }
    }

    /// Generates complete grids until one passes the validity scan,
    /// clearing the board before each retry, and returns the number of
    /// attempts. A pair of identical lines is the only violation a freshly
    /// generated grid can still carry, so few attempts are needed in
    /// practice; the attempt counter stops at the width of its type, and
    /// only a count below that bound promises a valid grid.
    pub fn generate_valid(&mut self, rng: &mut rand::rngs::StdRng) -> (r: u32)
        requires
            old(self).wf(),
        ensures
            final(self).wf(),
            final(self).same_but_map_flags(*old(self)),
            1 <= r,
            final(self).is_valid == grid_ok(final(self).grid(), old(self).n()),
            grid_complete(final(self).grid(), old(self).n()),
            r < u32::MAX ==> final(self).is_valid && final(self).is_won,
            r < u32::MAX ==> forall|i: int|
                0 <= i < old(self).n() ==> cnt_zero(#[trigger] final(self).grid()[i]) == old(
                    self,
                ).n() / 2 && cnt_one(final(self).grid()[i]) == old(self).n() / 2,
            r < u32::MAX ==> forall|i: int|
                0 <= i < old(self).n() ==> cnt_zero(
                    #[trigger] transpose(final(self).grid(), old(self).n())[i],
                ) == old(self).n() / 2 && cnt_one(transpose(final(self).grid(), old(self).n())[i])
                    == old(self).n() / 2,
    {
        let ghost b0 = *old(self);
        let ghost n = b0.n();
        let mut i: u32 = 1;
        self.generate(rng);
        while !self.is_valid && i < u32::MAX
            invariant
                self.wf(),
                n == b0.n(),
                b0.same_but_map_flags(*self),
                b0.wf(),
                1 <= i,
                grid_complete(self.grid(), n),
                self.is_valid == grid_ok(self.grid(), n),
                self.is_won == self.is_valid,
            decreases u32::MAX - i,
        {
            self.reset();
            self.generate(rng);
            i = i + 1;
        }
        proof {
            if i < u32::MAX {
                assert(self.is_valid);
                let g = self.grid();
                let t = transpose(g, n);
                assert forall|p: int|
                    0 <= p < n implies cnt_zero(#[trigger] g[p]) == n / 2 && cnt_one(g[p]) == n
                    / 2 by {
                    assert(!crate::model::unbalanced(g[p], n));
                    lemma_complete_balanced(g[p], n);
                }
                assert forall|p: int|
                    0 <= p < n implies cnt_zero(#[trigger] t[p]) == n / 2 && cnt_one(t[p]) == n
                    / 2 by {
                    assert(!crate::model::unbalanced(t[p], n));
                    assert(crate::model::line_complete(t[p])) by {
                        assert forall|j: int| 0 <= j < t[p].len() implies !((#[trigger] t[p][j]) is Empty) by {
                            assert(t[p][j] == g[j][p]);
                            assert(crate::model::line_complete(g[j]));
                        }
                    }
                    lemma_complete_balanced(t[p], n);
                }
            }
        }
        i
    }

    /// Like `generate`, but stops once the share of empty cells has dropped
    /// to the given percentage of the grid: the partially filled animation
    /// state, not a finished puzzle.
    pub fn generate_fraction(&mut self, rng: &mut rand::rngs::StdRng, fract_percent: u32)
        requires
            old(self).wf(),
            fract_percent <= 100,
        ensures
            final(self).wf(),
            final(self).same_but_map_flags(*old(self)),
            grid_refines(old(self).grid(), final(self).grid()),
            grid_empties(final(self).grid()) * 100 <= fract_percent * old(self).n() * old(
                self,
            ).n(),
            final(self).is_valid == grid_ok(final(self).grid(), old(self).n()),
            final(self).is_won == (final(self).is_valid && grid_complete(
                final(self).grid(),
                old(self).n(),
            )),
            (final(self).error.first is None) == final(self).is_valid,
    {
        let ghost b0 = *old(self);
        let ghost n = b0.n();
        let ghost g0 = b0.grid();
        let size = self.size;
        proof {
            lemma_grid_refines_refl(g0);
        }
        loop
            invariant
                self.wf(),
                self.size == size,
                size == b0.size,
                n == b0.n(),
                b0.same_but_map(*self),
                b0.wf(),
                g0 == b0.grid(),
                fract_percent <= 100,
                grid_refines(g0, self.grid()),
            ensures
                self.wf(),
                self.size == size,
                b0.same_but_map(*self),
                grid_refines(g0, self.grid()),
                grid_empties(self.grid()) * 100 <= fract_percent * n * n,
            decreases grid_empties(self.grid()),
        {
            let count = self.count_nones();
            let lhs: u64 = (count as u64) * 100;
            let fr: u64 = fract_percent as u64;
            let sz: u64 = size as u64;
            proof {
                assert(fr * sz <= 100 * 0xFFFF) by (nonlinear_arith)
                    requires
                        fr <= 100,
                        sz <= 0xFFFF,
                ;
                assert(fr * sz * sz <= 100 * 0xFFFF * 0xFFFF) by (nonlinear_arith)
                    requires
                        fr * sz <= 100 * 0xFFFF,
                        sz <= 0xFFFF,
                ;
            }
            let rhs: u64 = fr * sz * sz;
            proof {
                assert(fr * sz * sz == fract_percent * n * n) by (nonlinear_arith)
                    requires
                        n == sz as nat,
                        fr == fract_percent,
                ;
            }
            if !(lhs > rhs) {
                break ;
            }
            let ghost gs = self.grid();
            self.run_rules_gen();
            let ghost gm = self.grid();
            self.insert_random(rng);
            proof {
                lemma_grid_refines_trans(g0, gs, gm);
                crate::model::lemma_grid_empties_refines(gs, gm);
                lemma_grid_empties_complete(gs, n);
                if grid_complete(gm, n) {
                    lemma_grid_empties_complete(gm, n);
                } else {
                    lemma_grid_refines_trans(g0, gm, self.grid());
                }
            }
        }
        self.verify_board();
    }
}

} // verus!
