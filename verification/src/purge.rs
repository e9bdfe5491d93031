use vstd::prelude::*;

use crate::board::{Axis, Board};
use crate::cell::CellState;
use crate::model::{
    grid_complete, grid_empties, grid_nonempty, grid_ok, grid_refines, lemma_clear_one,
    lemma_grid_empties_le, lemma_grid_empties_update2, lemma_grid_refines_refl,
    lemma_grid_refines_trans, update2,
};
use crate::rng::rand_below;
use crate::rules_model::{lemma_empty_not_solvable, spec_solvable};

verus! {

/// Undoing one minimization step restores exactly the grid it started
/// from: putting the removed given back yields the input grid. Together
/// with the removal contract (the cleared grid is solvable) and the
/// minimizer's preservation clause this settles re-insertion one step at a
/// time; re-inserting into a grid shrunk further by later removals is not
/// claimed, since the rules' deductions are not monotone in the given-set.
pub proof fn lemma_reinsert_restores(g: Seq<Seq<CellState>>, yy: int, xx: int)
    requires
        0 <= yy < g.len(),
        0 <= xx < g[yy].len(),
    ensures
        update2(update2(g, yy, xx, CellState::Empty), yy, xx, g[yy][xx]) == g,
{
    let h = update2(g, yy, xx, CellState::Empty);
    assert(h[yy].update(xx, g[yy][xx]) =~= g[yy]);
    assert(update2(h, yy, xx, g[yy][xx]) =~= g);
}

proof fn lemma_push_keeps_contains<A>(s: Seq<A>, e: A, v: A)
    requires
        s.contains(v),
    ensures
        s.push(e).contains(v),
{
    let i = choose|i: int| 0 <= i < s.len() && s[i] == v;
    assert(s.push(e)[i] == v);
}

impl Board {
    /// A deep copy with a full contract: the copy carries the same grid and
    /// the same flags as the original.
    pub fn clone_board(&self) -> (r: Board)
        ensures
            r.grid() == self.grid(),
            r.same_but_map(*self),
    {
        let mut map: Vec<Vec<CellState>> = Vec::new();
        let mut y: usize = 0;
        while y < self.map.len()
            invariant
                y <= self.map@.len(),
                map@.len() == y,
                forall|i: int| 0 <= i < y ==> (#[trigger] map@[i])@ == self.map@[i]@,
            decreases self.map@.len() - y,
        {
            let row = &self.map[y];
            let mut newrow: Vec<CellState> = Vec::new();
            let mut x: usize = 0;
            while x < row.len()
                invariant
                    x <= row@.len(),
                    newrow@.len() == x,
                    forall|j: int| 0 <= j < x ==> #[trigger] newrow@[j] == row@[j],
                decreases row@.len() - x,
            {
                newrow.push(row[x]);
                x = x + 1;
            }
            proof {
                assert(newrow@ =~= row@);
            }
            map.push(newrow);
            y = y + 1;
        }
        let r = Board {
            id: self.id,
            is_won: self.is_won,
            is_valid: self.is_valid,
            is_generating: self.is_generating,
            size: self.size,
            map,
            error: self.error,
            hint: self.hint,
        };
        proof {
            assert(r.grid() =~= self.grid());
        }
        r
    }

    /// The heuristic solvability oracle: runs the rule fixpoint on a scratch
    /// copy and asks whether it ends complete and rule-consistent. The live
    /// grid is untouched.
    pub fn is_solvable(&self) -> (r: bool)
        requires
            self.wf(),
        ensures
            r == spec_solvable(self.grid(), self.n()),
    {
        let mut scratch = self.clone_board();
        scratch.run_rules();
        scratch.verify_board();
        scratch.is_won
    }

    /// One minimization pass: collects every determined cell whose clearing
    /// leaves the grid solvable, and clears one of them, chosen uniformly at
    /// random. Returns whether a cell was cleared; when none was, no single
    /// clearing could have preserved solvability.
    pub fn delete_one(&mut self, rng: &mut rand::rngs::StdRng) -> (r: bool)
        requires
            old(self).wf(),
        ensures
            final(self).wf(),
            old(self).same_but_map(*final(self)),
            grid_refines(final(self).grid(), old(self).grid()),
            !r ==> final(self).grid() == old(self).grid(),
            !r ==> forall|yy: int, xx: int|
                0 <= yy < old(self).n() && 0 <= xx < old(self).n() && !((
                #[trigger] old(self).grid()[yy][xx]) is Empty) ==> !spec_solvable(
                    update2(old(self).grid(), yy, xx, CellState::Empty),
                    old(self).n(),
                ),
            r ==> exists|yy: int, xx: int|
                0 <= yy < old(self).n() && 0 <= xx < old(self).n() && !((
                #[trigger] old(self).grid()[yy][xx]) is Empty) && final(self).grid() == update2(
                    old(self).grid(),
                    yy,
                    xx,
                    CellState::Empty,
                ),
            r ==> spec_solvable(final(self).grid(), old(self).n()),
    {
        let ghost b0 = *old(self);
        let ghost n = b0.n();
        let ghost g0 = b0.grid();
        let size = self.size;
        let mut to_delete: Vec<(usize, usize)> = Vec::new();
        let mut y: usize = 0;
        while y < size
            invariant
                self.wf(),
                self.size == size,
                n == size as nat,
                b0.same_but_map(*self),
                b0.wf(),
                g0 == b0.grid(),
                self.grid() == g0,
                y <= size,
                forall|k: int|
                    0 <= k < to_delete@.len() ==> {
                        let c = #[trigger] to_delete@[k];
                        &&& (c.1 as int) < n
                        &&& (c.0 as int) < n
                        &&& !(g0[c.1 as int][c.0 as int] is Empty)
                        &&& spec_solvable(update2(g0, c.1 as int, c.0 as int, CellState::Empty), n)
                    },
                forall|yy: int, xx: int|
                    0 <= yy < y && 0 <= xx < n && !((#[trigger] g0[yy][xx]) is Empty)
                        && spec_solvable(update2(g0, yy, xx, CellState::Empty), n)
                        ==> to_delete@.contains(((xx as usize), (yy as usize))),
            decreases size - y,
        {
            let mut x: usize = 0;
            while x < size
                invariant
                    self.wf(),
                    self.size == size,
                    n == size as nat,
                    b0.same_but_map(*self),
                    b0.wf(),
                    g0 == b0.grid(),
                    self.grid() == g0,
                    y < size,
                    x <= size,
                    forall|k: int|
                        0 <= k < to_delete@.len() ==> {
                            let c = #[trigger] to_delete@[k];
                            &&& (c.1 as int) < n
                            &&& (c.0 as int) < n
                            &&& !(g0[c.1 as int][c.0 as int] is Empty)
                            &&& spec_solvable(
                                update2(g0, c.1 as int, c.0 as int, CellState::Empty),
                                n,
                            )
                        },
                    forall|yy: int, xx: int|
                        0 <= yy < y && 0 <= xx < n && !((#[trigger] g0[yy][xx]) is Empty)
                            && spec_solvable(update2(g0, yy, xx, CellState::Empty), n)
                            ==> to_delete@.contains(((xx as usize), (yy as usize))),
                    forall|xx: int|
                        0 <= xx < x && !((#[trigger] g0[y as int][xx]) is Empty) && spec_solvable(
                            update2(g0, y as int, xx, CellState::Empty),
                            n,
                        ) ==> to_delete@.contains(((xx as usize), y)),
                decreases size - x,
            {
                let c = self.get_at(Axis::Row, y, x);
                if !matches!(c, CellState::Empty) {
                    self.set_at(Axis::Row, y, x, CellState::Empty);
                    let solv = self.is_solvable();
                    if solv {
                        let ghost td = to_delete@;
                        to_delete.push((x, y));
                        proof {
                            assert forall|v: (usize, usize)| td.contains(v) implies to_delete@.contains(
                                v,
                            ) by {
                                lemma_push_keeps_contains(td, (x, y), v);
                            }
                            assert(to_delete@[to_delete@.len() - 1] == (x, y));
                        }
                    }
                    self.set_at(Axis::Row, y, x, c);
                    proof {
                        let h = update2(g0, y as int, x as int, CellState::Empty);
                        assert(h[y as int].update(x as int, c) =~= g0[y as int]);
                        assert(self.grid() =~= g0);
                    }
                }
                x = x + 1;
            }
            y = y + 1;
        }
        if to_delete.len() == 0 {
            return false;
        }
        let k = rand_below(rng, to_delete.len());
        let coords = to_delete[k];
        proof {
            lemma_clear_one(g0, n, coords.1 as int, coords.0 as int);
        }
        self.set_at(Axis::Row, coords.1, coords.0, CellState::Empty);
        true
    }

    /// Minimizes the given-set: clears removable cells one at a time until
    /// no determined cell can be cleared without losing solvability, then
    /// re-runs the validity scan. The result is locally irreducible, a grid
    /// the oracle could solve stays solvable, and a grid with a given keeps
    /// one: the last given is never removable, since the empty grid is
    /// unsolvable.
    pub fn purge_redundancies(&mut self, rng: &mut rand::rngs::StdRng)
        requires
            old(self).wf(),
        ensures
            final(self).wf(),
            final(self).same_but_map_flags(*old(self)),
            grid_refines(final(self).grid(), old(self).grid()),
            spec_solvable(old(self).grid(), old(self).n()) ==> spec_solvable(
                final(self).grid(),
                old(self).n(),
            ),
            grid_nonempty(old(self).grid(), old(self).n()) ==> grid_nonempty(
                final(self).grid(),
                old(self).n(),
            ),
            forall|yy: int, xx: int|
                0 <= yy < old(self).n() && 0 <= xx < old(self).n() && !((
                #[trigger] final(self).grid()[yy][xx]) is Empty) ==> !spec_solvable(
                    update2(final(self).grid(), yy, xx, CellState::Empty),
                    old(self).n(),
                ),
            final(self).is_valid == grid_ok(final(self).grid(), old(self).n()),
            final(self).is_won == (final(self).is_valid && grid_complete(
                final(self).grid(),
                old(self).n(),
            )),
            (final(self).error.first is None) == final(self).is_valid,
    {
        let ghost b0 = *old(self);
        let ghost n = b0.n();
        let ghost g0 = b0.grid();
        proof {
            lemma_grid_refines_refl(g0);
            lemma_grid_empties_le(g0, n);
        }
        loop
            invariant
                self.wf(),
                self.size == b0.size,
                n == b0.n(),
                b0.same_but_map(*self),
                b0.wf(),
                g0 == b0.grid(),
                grid_refines(self.grid(), g0),
                spec_solvable(g0, n) ==> spec_solvable(self.grid(), n),
                grid_nonempty(g0, n) ==> grid_nonempty(self.grid(), n),
            ensures
                self.wf(),
                self.size == b0.size,
                b0.same_but_map(*self),
                grid_refines(self.grid(), g0),
                spec_solvable(g0, n) ==> spec_solvable(self.grid(), n),
                grid_nonempty(g0, n) ==> grid_nonempty(self.grid(), n),
                forall|yy: int, xx: int|
                    0 <= yy < n && 0 <= xx < n && !((#[trigger] self.grid()[yy][xx]) is Empty)
                        ==> !spec_solvable(update2(self.grid(), yy, xx, CellState::Empty), n),
            decreases n * n - grid_empties(self.grid()),
        {
            let ghost gpre = self.grid();
            let deleted = self.delete_one(rng);
            if !deleted {
                break ;
            }
            proof {
                lemma_grid_refines_trans(self.grid(), gpre, g0);
                let (yy, xx) = choose|yy: int, xx: int|
                    0 <= yy < n && 0 <= xx < n && !((#[trigger] gpre[yy][xx]) is Empty)
                        && self.grid() == update2(gpre, yy, xx, CellState::Empty);
                lemma_grid_empties_update2(gpre, yy, xx, CellState::Empty);
                lemma_grid_empties_le(self.grid(), n);
                if !grid_nonempty(self.grid(), n) {
                    lemma_empty_not_solvable(self.grid(), n);
                }
            }
        }
        self.verify_board();
    }
}

} // verus!
