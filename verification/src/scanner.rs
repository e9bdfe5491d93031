use vstd::prelude::*;

use crate::board::{Axis, Board, ErrorPair, Region};
use crate::cell::CellState;
use crate::model::{
    axis_ok, cnt_one, cnt_zero, dup_pair, grid_complete, grid_ok, has_triple,
    lemma_cnt_one_take_step, lemma_cnt_zero_take_step, line_complete, lines_same, transpose,
    triple_at, unbalanced,
};

verus! {

/// What one axis scan reports of the grid `g` it walked. No region means no
/// violation at all. A single region marks the first violating line: the
/// earliest triple of that line, or, in a line without one, its digit
/// surplus. Two regions mark the lexicographically first pair of identical
/// fully determined lines, reported only once every line has passed the
/// first two checks.
pub open spec fn axis_error_report(
    g: Seq<Seq<CellState>>,
    n: nat,
    first: Option<Region>,
    second: Option<Region>,
) -> bool {
    &&& (first is None <==> axis_ok(g, n))
    &&& match (first, second) {
        (Option::None, s) => s is None,
        (Option::Some(a), Option::None) => {
            &&& a.y < n
            &&& a.h == 1
            &&& forall|l: int| 0 <= l < a.y ==> !has_triple(#[trigger] g[l]) && !unbalanced(g[l], n)
            &&& ((a.w == 3 && a.x + 3 <= n && triple_at(g[a.y as int], a.x as int) && (forall|i: int|
                0 <= i < a.x ==> !triple_at(g[a.y as int], i))) || (a.x == 0 && a.w == n
                && unbalanced(g[a.y as int], n) && !has_triple(g[a.y as int])))
        },
        (Option::Some(a), Option::Some(b)) => {
            &&& a.x == 0 && a.w == n && a.h == 1
            &&& b.x == 0 && b.w == n && b.h == 1
            &&& dup_pair(g, a.y as int, b.y as int)
            &&& forall|i: int| 0 <= i < n ==> !has_triple(#[trigger] g[i])
            &&& forall|i: int| 0 <= i < n ==> !unbalanced(#[trigger] g[i], n)
            &&& forall|i: int, j: int| 0 <= i < a.y && i < j < n ==> !dup_pair(g, i, j)
            &&& forall|j: int| a.y < j < b.y ==> !dup_pair(g, a.y as int, j)
        },
    }
}

/// A region with its two coordinates exchanged: how a finding on the
/// transposed grid is drawn back on the original one.
pub open spec fn swap_region(a: Region) -> Region {
    Region { x: a.y, y: a.x, w: a.h, h: a.w }
}

pub open spec fn swap_opt_region(a: Option<Region>) -> Option<Region> {
    match a {
        Option::None => Option::None,
        Option::Some(a) => Option::Some(swap_region(a)),
    }
}

impl Board {
    /// Scans the lines of one axis for the first violation: a run of three
    /// equal digits, then a line with more than half its size of one digit,
    /// and only after every line passes both, a pair of identical fully
    /// determined lines (reported as two regions). Regions are in axis
    /// coordinates: `x` the offset along a line, `y` the line index.
    pub fn get_errors_axis(&self, axis: Axis) -> (r: (Option<Region>, Option<Region>))
        requires
            self.wf(),
        ensures
            axis_error_report(self.axis_grid(axis), self.n(), r.0, r.1),
    {
        let ghost g = self.axis_grid(axis);
        let ghost n = self.n();
        let size = self.size;
        let mut c1: usize = 0;
        while c1 < size
            invariant
                self.wf(),
                self.size == size,
                n == size as nat,
                g == self.axis_grid(axis),
                c1 <= size,
                forall|i: int| 0 <= i < c1 ==> !has_triple(#[trigger] g[i]),
                forall|i: int| 0 <= i < c1 ==> !unbalanced(#[trigger] g[i], n),
            decreases size - c1,
        {
            let ghost line = g[c1 as int];
            proof {
                assert(line.take(0) =~= Seq::<CellState>::empty());
            }
            let mut trues: usize = 0;
            let mut falses: usize = 0;
            let mut counter: usize = 1;
            let mut state = CellState::Empty;
            let mut c2: usize = 0;
            while c2 < size
                invariant
                    self.wf(),
                    self.size == size,
                    n == size as nat,
                    g == self.axis_grid(axis),
                    c1 < size,
                    c2 <= size,
                    line == g[c1 as int],
                    line.len() == size,
                    forall|i: int| 0 <= i < c1 ==> !has_triple(#[trigger] g[i]),
                    forall|i: int| 0 <= i < c1 ==> !unbalanced(#[trigger] g[i], n),
                    trues == cnt_one(line.take(c2 as int)),
                    falses == cnt_zero(line.take(c2 as int)),
                    trues <= c2,
                    falses <= c2,
                    1 <= counter <= c2 + 1,
                    c2 >= 1 ==> state.same_val(line[c2 - 1]),
                    !(state is Empty) ==> counter <= c2 && (forall|k: int|
                        c2 - counter <= k < c2 ==> (#[trigger] line[k]).same_val(state)),
                    c2 >= 2 && line[c2 - 2].same_val(line[c2 - 1]) && !(line[c2 - 1] is Empty)
                        ==> counter >= 2 && !(state is Empty),
                    forall|i: int| 0 <= i <= c2 - 3 ==> !triple_at(line, i),
                decreases size - c2,
            {
                proof {
                    lemma_cnt_one_take_step(line, c2 as int);
                    lemma_cnt_zero_take_step(line, c2 as int);
                }
                let cur = self.get_at(axis, c1, c2);
                match cur {
                    CellState::Zero(_) => falses = falses + 1,
                    CellState::One(_) => trues = trues + 1,
                    CellState::Empty => {},
                }
                if cur == state {
                    counter = counter + 1;
                } else {
                    counter = 1;
                    state = cur;
                }
                if counter > 2 && !matches!(state, CellState::Empty) {
                    proof {
                        assert(line[c2 - 2].same_val(state));
                        assert(line[c2 - 1].same_val(state));
                        assert(line[c2 as int].same_val(state));
                        assert(triple_at(line, c2 - 2));
                        assert(!axis_ok(g, n));
                        assert forall|i: int| 0 <= i < c2 - 2 implies !triple_at(
                            g[c1 as int],
                            i,
                        ) by {
                            assert(!triple_at(line, i));
                        }
                    }
                    return (Some(Region { x: c2 - 2, y: c1, w: 3, h: 1 }), None);
                }
                proof {
                    assert forall|i: int| 0 <= i <= c2 + 1 - 3 implies !triple_at(line, i) by {
                        if i == c2 - 2 {
                            if triple_at(line, i) {
                                assert(line[c2 - 2].same_val(line[c2 - 1]));
                                assert(line[c2 - 1].same_val(line[c2 as int]));
                                assert(!(line[c2 - 2] is Empty));
                            }
                        }
                    }
                }
                c2 = c2 + 1;
            }
            proof {
                assert(line.take(size as int) =~= line);
            }
            if falses > size / 2 || trues > size / 2 {
                proof {
                    assert(unbalanced(line, n));
                    assert(!axis_ok(g, n));
                }
                return (Some(Region { x: 0, y: c1, w: size, h: 1 }), None);
            }
            proof {
                assert(!has_triple(line)) by {
                    if has_triple(line) {
                        let i = choose|i: int| triple_at(line, i);
                        assert(0 <= i <= size - 3);
                    }
                }
            }
            c1 = c1 + 1;
        }
        let mut c1_1: usize = 0;
        while c1_1 < size
            invariant
                self.wf(),
                self.size == size,
                n == size as nat,
                g == self.axis_grid(axis),
                c1_1 <= size,
                forall|i: int| 0 <= i < n ==> !has_triple(#[trigger] g[i]),
                forall|i: int| 0 <= i < n ==> !unbalanced(#[trigger] g[i], n),
                forall|i: int, j: int| 0 <= i < c1_1 && i < j < n ==> !dup_pair(g, i, j),
            decreases size - c1_1,
        {
            let mut c1_2: usize = c1_1 + 1;
            while c1_2 < size
                invariant
                    self.wf(),
                    self.size == size,
                    n == size as nat,
                    g == self.axis_grid(axis),
                    c1_1 < size,
                    c1_1 < c1_2 <= size,
                    forall|i: int| 0 <= i < n ==> !has_triple(#[trigger] g[i]),
                    forall|i: int| 0 <= i < n ==> !unbalanced(#[trigger] g[i], n),
                    forall|i: int, j: int| 0 <= i < c1_1 && i < j < n ==> !dup_pair(g, i, j),
                    forall|j: int| c1_1 < j < c1_2 ==> !dup_pair(g, c1_1 as int, j),
                decreases size - c1_2,
            {
                let ghost la = g[c1_1 as int];
                let ghost lb = g[c1_2 as int];
                let mut are_same = true;
                let mut any_nones = false;
                let mut c2: usize = 0;
                while c2 < size
                    invariant
                        self.wf(),
                        self.size == size,
                        n == size as nat,
                        g == self.axis_grid(axis),
                        c1_1 < size,
                        c1_1 < c1_2 < size,
                        c2 <= size,
                        la == g[c1_1 as int],
                        lb == g[c1_2 as int],
                        are_same == (forall|k: int|
                            0 <= k < c2 ==> (#[trigger] la[k]).same_val(lb[k])),
                        any_nones == (exists|k: int|
                            0 <= k < c2 && ((#[trigger] la[k]) is Empty || lb[k] is Empty)),
                    decreases size - c2,
                {
                    let ca = self.get_at(axis, c1_1, c2);
                    let cb = self.get_at(axis, c1_2, c2);
                    let eq_here = ca == cb;
                    are_same = are_same && eq_here;
                    let none_here = matches!(ca, CellState::Empty) || matches!(
                        cb,
                        CellState::Empty,
                    );
                    any_nones = any_nones || none_here;
                    c2 = c2 + 1;
                }
                if are_same && !any_nones {
                    proof {
                        assert(la.len() == size && lb.len() == size);
                        assert forall|k: int| 0 <= k < size implies !((#[trigger] lb[k]) is Empty)
                            && !(la[k] is Empty) by {
                            assert(!(la[k] is Empty || lb[k] is Empty));
                        }
                        assert(line_complete(la));
                        assert(line_complete(lb));
                        assert(lines_same(la, lb));
                        assert(dup_pair(g, c1_1 as int, c1_2 as int));
                        assert(!axis_ok(g, n));
                    }
                    return (
                        Some(Region { x: 0, y: c1_1, w: size, h: 1 }),
                        Some(Region { x: 0, y: c1_2, w: size, h: 1 }),
                    );
                }
                proof {
                    if dup_pair(g, c1_1 as int, c1_2 as int) {
                        assert(forall|k: int|
                            0 <= k < size ==> (#[trigger] la[k]).same_val(lb[k]));
                        assert(!(exists|k: int|
                            0 <= k < size && ((#[trigger] la[k]) is Empty || lb[k] is Empty))) by {
                            if exists|k: int|
                                0 <= k < size && ((#[trigger] la[k]) is Empty || lb[k] is Empty) {
                                let k = choose|k: int|
                                    0 <= k < size && ((#[trigger] la[k]) is Empty
                                        || lb[k] is Empty);
                                assert(!(la[k] is Empty));
                                assert(!(lb[k] is Empty));
                            }
                        }
                    }
                }
                c1_2 = c1_2 + 1;
            }
            c1_1 = c1_1 + 1;
        }
        proof {
            assert forall|i: int, j: int| !dup_pair(g, i, j) by {
                if dup_pair(g, i, j) {
                    assert(0 <= i < j < n);
                }
            }
        }
        (None, None)
    }

    /// Scans the columns, then the rows, and stores the outcome: the column
    /// scan wins when both axes are in violation, and its regions are drawn
    /// back on the board with their coordinates exchanged. `is_won` asks for
    /// a complete and consistent grid.
    pub fn verify_board(&mut self)
        requires
            old(self).wf(),
        ensures
            final(self).wf(),
            final(self).grid() == old(self).grid(),
            final(self).same_but_map_flags(*old(self)),
            final(self).is_valid == grid_ok(old(self).grid(), old(self).n()),
            final(self).is_won == (grid_ok(old(self).grid(), old(self).n()) && grid_complete(
                old(self).grid(),
                old(self).n(),
            )),
            (final(self).error.first is None) == final(self).is_valid,
            final(self).is_valid ==> final(self).error.second is None,
            !axis_ok(transpose(old(self).grid(), old(self).n()), old(self).n())
                ==> axis_error_report(
                transpose(old(self).grid(), old(self).n()),
                old(self).n(),
                swap_opt_region(final(self).error.first),
                swap_opt_region(final(self).error.second),
            ),
            axis_ok(transpose(old(self).grid(), old(self).n()), old(self).n()) && !axis_ok(
                old(self).grid(),
                old(self).n(),
            ) ==> axis_error_report(
                old(self).grid(),
                old(self).n(),
                final(self).error.first,
                final(self).error.second,
            ),
    {
        let resp1 = self.get_errors_axis(Axis::Col);
        let resp2 = self.get_errors_axis(Axis::Row);
        self.is_valid = resp1.0.is_none() && resp2.0.is_none();
        if resp1.0.is_some() {
            let a = resp1.0.unwrap();
            let first = Some(Region { x: a.y, y: a.x, w: a.h, h: a.w });
            let second = match resp1.1 {
                Some(b) => Some(Region { x: b.y, y: b.x, w: b.h, h: b.w }),
                None => None,
            };
            self.error = ErrorPair { first, second };
        } else if resp2.0.is_some() {
            self.error = ErrorPair { first: resp2.0, second: resp2.1 };
        } else {
            self.error = ErrorPair { first: None, second: None };
        }
        let nones = self.has_nones();
        self.is_won = !nones && self.is_valid;
    }
}

} // verus!
