use vstd::prelude::*;

use crate::board::{Axis, Board};
use crate::cell::CellState;
use crate::model::{grid_refines, lemma_transpose_transpose, transpose};
use crate::rng::rand_below;
use crate::rules_model::{fill_grid, sep_grid, sur_grid};

verus! {

/// The grid one single rule pass leaves behind: the three rules, each over
/// the rows or over the columns, in the order the hint oracle enumerates
/// them.
pub open spec fn pass_result(g: Seq<Seq<CellState>>, n: nat, k: int) -> Seq<Seq<CellState>> {
    if k == 0 {
        sur_grid(g, n)
    } else if k == 1 {
        transpose(sur_grid(transpose(g, n), n), n)
    } else if k == 2 {
        sep_grid(g, n)
    } else if k == 3 {
        transpose(sep_grid(transpose(g, n), n), n)
    } else if k == 4 {
        fill_grid(g, n)
    } else {
        transpose(fill_grid(transpose(g, n), n), n)
    }
}

/// A sound hint: the cell is empty on the live grid, and some single rule
/// pass forces it.
pub open spec fn hint_sound(g: Seq<Seq<CellState>>, n: nat, h: Option<(usize, usize)>) -> bool {
    match h {
        Option::Some(p) => {
            &&& (p.1 as int) < n
            &&& (p.0 as int) < n
            &&& g[p.1 as int][p.0 as int] is Empty
            &&& exists|k: int|
                0 <= k < 6 && !((#[trigger] pass_result(g, n, k))[p.1 as int][p.0 as int] is Empty)
        },
        Option::None => false,
    }
}

/// Exactly one cell is forceable: every single rule pass either changes
/// nothing or fills the cell `(x0, y0)` alone, and some pass does fill it.
pub open spec fn only_forced(g: Seq<Seq<CellState>>, n: nat, x0: int, y0: int) -> bool {
    &&& 0 <= y0 < n
    &&& 0 <= x0 < n
    &&& forall|k: int, i: int, j: int|
        0 <= k < 6 && 0 <= i < n && 0 <= j < n && #[trigger] pass_result(g, n, k)[i][j] != g[i][j]
            ==> i == y0 && j == x0
    &&& g[y0][x0] is Empty
    &&& exists|k: int| 0 <= k < 6 && !((#[trigger] pass_result(g, n, k))[y0][x0] is Empty)
}

proof fn lemma_push_has<A>(s: Seq<A>, e: A, v: A)
    requires
        s.contains(v),
    ensures
        s.push(e).contains(v),
{
    let i = choose|i: int| 0 <= i < s.len() && s[i] == v;
    assert(s.push(e)[i] == v);
}

impl Board {
    /// Shuffles the six rule passes, runs them on a scratch copy until the
    /// first one that changes anything, and stores one of the cells that the
    /// pass filled, chosen uniformly at random, as the hint. When no pass
    /// fires, the hint is left as it was. When exactly one cell is forceable
    /// at all, that cell is the hint whatever the random draws did.
    pub fn generate_hint(&mut self, rng: &mut rand::rngs::StdRng)
        requires
            old(self).wf(),
        ensures
            final(self).wf(),
            final(self).grid() == old(self).grid(),
            final(self).same_but_hint(*old(self)),
            final(self).hint == old(self).hint || hint_sound(
                old(self).grid(),
                old(self).n(),
                final(self).hint,
            ),
            (exists|k: int|
                0 <= k < 6 && #[trigger] pass_result(old(self).grid(), old(self).n(), k) != old(
                    self,
                ).grid()) ==> final(self).hint is Some && hint_sound(
                old(self).grid(),
                old(self).n(),
                final(self).hint,
            ),
            forall|x0: int, y0: int|
                only_forced(old(self).grid(), old(self).n(), x0, y0) ==> final(self).hint
                    == Option::Some(((x0 as usize), (y0 as usize))),
    {
        let ghost b0 = *old(self);
        let ghost n = b0.n();
        let ghost g0 = b0.grid();
        let size = self.size;
        let mut scratch = self.clone_board();
        let mut pool: Vec<usize> = Vec::new();
        pool.push(0);
        pool.push(1);
        pool.push(2);
        pool.push(3);
        pool.push(4);
        pool.push(5);
        let mut order: Vec<usize> = Vec::new();
        proof {
            assert forall|v: usize| v < 6 implies pool@.contains(v) by {
                assert(pool@[v as int] == v);
            }
        }
        while pool.len() > 0
            invariant
                pool@.len() + order@.len() == 6,
                forall|i: int| 0 <= i < pool@.len() ==> (#[trigger] pool@[i]) < 6,
                forall|i: int| 0 <= i < order@.len() ==> (#[trigger] order@[i]) < 6,
                forall|v: usize| v < 6 ==> pool@.contains(v) || order@.contains(v),
            decreases pool@.len(),
        {
            let k = rand_below(rng, pool.len());
            let ghost p0 = pool@;
            let ghost o0 = order@;
            let picked = pool.remove(k);
            order.push(picked);
            proof {
                p0.remove_ensures(k as int);
                assert(order@[order@.len() - 1] == picked);
                assert forall|v: usize| v < 6 implies pool@.contains(v) || order@.contains(v) by {
                    if p0.contains(v) {
                        let i = choose|i: int| 0 <= i < p0.len() && p0[i] == v;
                        if i == k {
                            assert(order@[order@.len() - 1] == v);
                        } else if i < k {
                            assert(pool@[i] == v);
                        } else {
                            assert(pool@[i - 1] == v);
                        }
                    } else {
                        lemma_push_has(o0, picked, v);
                    }
                }
                assert forall|i: int| 0 <= i < order@.len() implies (#[trigger] order@[i]) < 6 by {
                    if i < o0.len() {
                        assert(order@[i] == o0[i]);
                    } else {
                        assert(order@[i] == picked);
                        assert(p0[k as int] == picked);
                    }
                }
                assert forall|i: int| 0 <= i < pool@.len() implies (#[trigger] pool@[i]) < 6 by {
                    if i < k {
                        assert(pool@[i] == p0[i]);
                    } else {
                        assert(pool@[i] == p0[i + 1]);
                    }
                }
            }
        }
        let mut fired = false;
        let mut idx: usize = 0;
        while idx < 6 && !fired
            invariant
                self.wf(),
                *self == b0,
                b0 == *old(self),
                n == b0.n(),
                g0 == b0.grid(),
                scratch.wf(),
                scratch.size == b0.size,
                idx <= 6,
                order@.len() == 6,
                forall|i: int| 0 <= i < 6 ==> (#[trigger] order@[i]) < 6,
                forall|v: usize| v < 6 ==> order@.contains(v),
                !fired ==> scratch.grid() == g0,
                !fired ==> forall|i: int|
                    0 <= i < idx ==> pass_result(g0, n, #[trigger] order@[i] as int) == g0,
                fired ==> exists|k: int|
                    0 <= k < 6 && scratch.grid() == #[trigger] pass_result(g0, n, k)
                        && scratch.grid() != g0,
                fired ==> grid_refines(g0, scratch.grid()),
            decreases 6 - idx,
        {
            let a = order[idx];
            let ghost gpre = scratch.grid();
            let ch = match a {
                0 => scratch.surround_doubles_axis(Axis::Row),
                1 => scratch.surround_doubles_axis(Axis::Col),
                2 => scratch.separate_triples_axis(Axis::Row),
                3 => scratch.separate_triples_axis(Axis::Col),
                4 => scratch.fill_rows_axis(Axis::Row),
                _ => scratch.fill_rows_axis(Axis::Col),
            };
            proof {
                if a == 1 || a == 3 || a == 5 {
                    lemma_transpose_transpose(scratch.grid(), n);
                }
                assert(scratch.grid() == pass_result(g0, n, a as int));
            }
            if ch {
                fired = true;
            }
            idx = idx + 1;
        }
        if fired {
            let mut cand: Vec<(usize, usize)> = Vec::new();
            let mut y: usize = 0;
            while y < size
                invariant
                    self.wf(),
                    *self == b0,
                    b0 == *old(self),
                    self.size == size,
                    n == size as nat,
                    g0 == b0.grid(),
                    scratch.wf(),
                    scratch.size == size,
                    y <= size,
                    exists|k: int|
                        0 <= k < 6 && scratch.grid() == #[trigger] pass_result(g0, n, k)
                            && scratch.grid() != g0,
                    grid_refines(g0, scratch.grid()),
                    forall|c: int|
                        0 <= c < cand@.len() ==> {
                            let p = #[trigger] cand@[c];
                            &&& (p.1 as int) < n
                            &&& (p.0 as int) < n
                            &&& g0[p.1 as int][p.0 as int] is Empty
                            &&& !(scratch.grid()[p.1 as int][p.0 as int] is Empty)
                        },
                    forall|i: int, j: int|
                        0 <= i < y && 0 <= j < n && (#[trigger] g0[i][j]) is Empty && !(
                        scratch.grid()[i][j] is Empty) ==> cand@.contains(
                            ((j as usize), (i as usize)),
                        ),
                decreases size - y,
            {
                let mut x: usize = 0;
                while x < size
                    invariant
                        self.wf(),
                        *self == b0,
                        b0 == *old(self),
                        self.size == size,
                        n == size as nat,
                        g0 == b0.grid(),
                        scratch.wf(),
                        scratch.size == size,
                        y < size,
                        x <= size,
                        exists|k: int|
                            0 <= k < 6 && scratch.grid() == #[trigger] pass_result(g0, n, k)
                                && scratch.grid() != g0,
                        grid_refines(g0, scratch.grid()),
                        forall|c: int|
                            0 <= c < cand@.len() ==> {
                                let p = #[trigger] cand@[c];
                                &&& (p.1 as int) < n
                                &&& (p.0 as int) < n
                                &&& g0[p.1 as int][p.0 as int] is Empty
                                &&& !(scratch.grid()[p.1 as int][p.0 as int] is Empty)
                            },
                        forall|i: int, j: int|
                            0 <= i < y && 0 <= j < n && (#[trigger] g0[i][j]) is Empty && !(
                            scratch.grid()[i][j] is Empty) ==> cand@.contains(
                                ((j as usize), (i as usize)),
                            ),
                        forall|j: int|
                            0 <= j < x && (#[trigger] g0[y as int][j]) is Empty && !(
                            scratch.grid()[y as int][j] is Empty) ==> cand@.contains(
                                ((j as usize), y),
                            ),
                    decreases size - x,
                {
                    let a = self.get_at(Axis::Row, y, x);
                    let b = scratch.get_at(Axis::Row, y, x);
                    if matches!(a, CellState::Empty) && !matches!(b, CellState::Empty) {
                        let ghost c0 = cand@;
                        cand.push((x, y));
                        proof {
                            assert(cand@[cand@.len() - 1] == (x, y));
                            assert forall|v: (usize, usize)| c0.contains(v) implies cand@.contains(
                                v,
                            ) by {
                                lemma_push_has(c0, (x, y), v);
                            }
                        }
                    }
                    x = x + 1;
                }
                y = y + 1;
            }
            if cand.len() != 0 {
                let k = rand_below(rng, cand.len());
                let picked = cand[k];
                self.hint = Some(picked);
                proof {
                    let kf = choose|k: int|
                        0 <= k < 6 && scratch.grid() == #[trigger] pass_result(g0, n, k)
                            && scratch.grid() != g0;
                    assert(!(pass_result(g0, n, kf)[picked.1 as int][picked.0 as int] is Empty));
                    assert(hint_sound(g0, n, self.hint));
                    assert forall|x0: int, y0: int|
                        only_forced(g0, n, x0, y0) implies self.hint == Option::Some(
                        ((x0 as usize), (y0 as usize)),
                    ) by {
                        assert forall|c: int| 0 <= c < cand@.len() implies #[trigger] cand@[c]
                            == (((x0 as usize), (y0 as usize))) by {
                            let p = cand@[c];
                            assert(!(scratch.grid()[p.1 as int][p.0 as int] is Empty) && g0[p.1 as int][p.0 as int] is Empty);
                            assert(scratch.grid()[p.1 as int][p.0 as int] != g0[p.1 as int][p.0 as int]);
                            assert(pass_result(g0, n, kf)[p.1 as int][p.0 as int] != g0[p.1 as int][p.0 as int]);
                        }
                        assert(cand@[k as int] == (((x0 as usize), (y0 as usize))));
                    }
                }
            } else {
                proof {
                    let kf = choose|k: int|
                        0 <= k < 6 && scratch.grid() == #[trigger] pass_result(g0, n, k)
                            && scratch.grid() != g0;
                    assert(exists|i: int, j: int|
                        0 <= i < n && 0 <= j < n && #[trigger] scratch.grid()[i][j] != g0[i][j])
                        by {
                        if forall|i: int, j: int|
                            0 <= i < n && 0 <= j < n ==> #[trigger] scratch.grid()[i][j]
                                == g0[i][j] {
                            crate::model::lemma_grid_ext(scratch.grid(), g0, n);
                        }
                    }
                    let (di, dj) = choose|i: int, j: int|
                        0 <= i < n && 0 <= j < n && #[trigger] scratch.grid()[i][j] != g0[i][j];
                    assert(crate::model::line_refines(g0[di], scratch.grid()[di]));
                    assert(g0[di][dj] is Empty && !(scratch.grid()[di][dj] is Empty));
                    assert(cand@.contains(((dj as usize), (di as usize))));
                    assert(false);
                }
            }
        } else {
            proof {
                assert forall|k: int| 0 <= k < 6 implies #[trigger] pass_result(g0, n, k)
                    == g0 by {
                    assert(order@.contains(k as usize)) by {
                        assert((k as usize) < 6);
                    }
                    let i = choose|i: int| 0 <= i < order@.len() && order@[i] == (k as usize);
                    assert(pass_result(g0, n, order@[i] as int) == g0);
                }
                assert forall|x0: int, y0: int|
                    only_forced(g0, n, x0, y0) implies self.hint == Option::Some(
                    ((x0 as usize), (y0 as usize)),
                ) by {
                    let kf = choose|k: int|
                        0 <= k < 6 && !((#[trigger] pass_result(g0, n, k))[y0][x0] is Empty);
                    assert(pass_result(g0, n, kf) == g0);
                    assert(g0[y0][x0] is Empty);
                    assert(false);
                }
                if exists|k: int| 0 <= k < 6 && #[trigger] pass_result(g0, n, k) != g0 {
                    let k = choose|k: int| 0 <= k < 6 && #[trigger] pass_result(g0, n, k) != g0;
                    assert(false);
                }
            }
        }
    }
}

} // verus!
