use vstd::prelude::*;

use crate::cell::CellState;
use crate::model::{
    cnt_empty, cnt_one, cnt_zero, grid_complete, grid_empties, grid_ok, grid_refines, grid_val_eq,
    is_grid, lemma_cnt_empty_complete, lemma_cnt_val_eq, lemma_grid_complete_val_eq,
    lemma_grid_empties_refines, lemma_grid_ok_val_eq, lemma_grid_refines_trans,
    lemma_line_refines_trans, lemma_refines_val_eq, lemma_transpose_is_grid,
    lemma_transpose_refines, lemma_transpose_transpose, lemma_transpose_val_eq, line_complete,
    line_refines, line_val_eq, transpose,
};

verus! {

// ---------------------------------------------------------------------------
// Exact models of the three deduction rules. Each pass walks a line left to
// right and may write into cells it has not read yet, so the models thread
// the evolving line through a recursion, one step per offset, exactly as the
// executable passes do.
// ---------------------------------------------------------------------------
// Fill-Majority: once a line holds half its size of one digit, every empty
// cell of the line is forced to the other digit.
pub open spec fn fill_line(line: Seq<CellState>, n: nat) -> Seq<CellState> {
    if cnt_one(line) == n / 2 && cnt_empty(line) != 0 {
        line.map_values(
            |c: CellState|
                if c is Empty {
                    CellState::Zero(false)
                } else {
                    c
                },
        )
    } else if cnt_zero(line) == n / 2 && cnt_empty(line) != 0 {
        line.map_values(
            |c: CellState|
                if c is Empty {
                    CellState::One(false)
                } else {
                    c
                },
        )
    } else {
        line
    }
}

pub open spec fn fill_grid(g: Seq<Seq<CellState>>, n: nat) -> Seq<Seq<CellState>> {
    Seq::new(n, |i: int| fill_line(g[i], n))
}

// Surround-Pairs: two adjacent equal digits force the cells one before and
// one after the pair (when empty) to the other digit. `last` is the value
// read at the previous offset.
pub open spec fn sur_step(line: Seq<CellState>, n: nat, c2: nat, last: CellState) -> Seq<
    CellState,
> {
    if last.same_val(line[c2 as int]) && !(last is Empty) {
        let la = if c2 >= 2 && line[c2 - 2] is Empty {
            line.update(c2 - 2, last.spec_inverse())
        } else {
            line
        };
        let lb = if c2 + 1 < n && la[c2 + 1 as int] is Empty {
            la.update(c2 + 1 as int, last.spec_inverse())
        } else {
            la
        };
        lb
    } else {
        line
    }
}

pub open spec fn sur_line_rec(line: Seq<CellState>, n: nat, c2: nat, last: CellState) -> Seq<
    CellState,
>
    decreases n - c2,
{
    if c2 >= n {
        line
    } else {
        let l1 = sur_step(line, n, c2, last);
        sur_line_rec(l1, n, c2 + 1, l1[c2 as int])
    }
}

pub open spec fn sur_line(line: Seq<CellState>, n: nat) -> Seq<CellState> {
    sur_line_rec(line, n, 0, CellState::Empty)
}

pub open spec fn sur_grid(g: Seq<Seq<CellState>>, n: nat) -> Seq<Seq<CellState>> {
    Seq::new(n, |i: int| sur_line(g[i], n))
}

// Separate-Gaps: two equal digits around a single empty cell force that cell
// to the other digit. `last` is the value read one offset back, `lastlast`
// two offsets back; `last` always mirrors the cell one back, while
// `lastlast` may be stale after a write.
pub open spec fn sep_step(
    line: Seq<CellState>,
    n: nat,
    c2: nat,
    last: CellState,
    lastlast: CellState,
) -> Seq<CellState> {
    if c2 >= 2 && lastlast.same_val(line[c2 as int]) && !(lastlast is Empty) && last is Empty {
        line.update(c2 - 1, lastlast.spec_inverse())
    } else {
        line
    }
}

pub open spec fn sep_line_rec(
    line: Seq<CellState>,
    n: nat,
    c2: nat,
    last: CellState,
    lastlast: CellState,
) -> Seq<CellState>
    decreases n - c2,
{
    if c2 >= n {
        line
    } else {
        let l1 = sep_step(line, n, c2, last, lastlast);
        sep_line_rec(l1, n, c2 + 1, l1[c2 as int], last)
    }
}

pub open spec fn sep_line(line: Seq<CellState>, n: nat) -> Seq<CellState> {
    sep_line_rec(line, n, 0, CellState::Empty, CellState::Empty)
}

pub open spec fn sep_grid(g: Seq<Seq<CellState>>, n: nat) -> Seq<Seq<CellState>> {
    Seq::new(n, |i: int| sep_line(g[i], n))
}

// ---------------------------------------------------------------------------
// Both-axis application: a rule runs over the rows, then over the columns of
// the grid it produced (the rows of its transpose).
// ---------------------------------------------------------------------------

pub open spec fn fill_both(g: Seq<Seq<CellState>>, n: nat) -> Seq<Seq<CellState>> {
    transpose(fill_grid(transpose(fill_grid(g, n), n), n), n)
}

pub open spec fn sur_both(g: Seq<Seq<CellState>>, n: nat) -> Seq<Seq<CellState>> {
    transpose(sur_grid(transpose(sur_grid(g, n), n), n), n)
}

pub open spec fn sep_both(g: Seq<Seq<CellState>>, n: nat) -> Seq<Seq<CellState>> {
    transpose(sep_grid(transpose(sep_grid(g, n), n), n), n)
}

// ---------------------------------------------------------------------------
// The inverse rules with the probability dial at its top are deterministic;
// these are their exact models, threaded like the forward passes. The
// inverse of Fill-Majority stays probabilistic even then (it draws which
// digit to clear), so it has no model here.
// ---------------------------------------------------------------------------
// The inverse of Separate-Gaps: three determined cells whose outer two are
// equal lose the middle one. A write poisons the stale `lastlast` to empty.
pub open spec fn desep_step(
    line: Seq<CellState>,
    n: nat,
    c2: nat,
    last: CellState,
    lastlast: CellState,
) -> Seq<CellState> {
    if c2 >= 1 && lastlast.same_val(line[c2 as int]) && !(lastlast is Empty) && !(last is Empty) {
        line.update(c2 - 1, CellState::Empty)
    } else {
        line
    }
}

pub open spec fn desep_fires(
    line: Seq<CellState>,
    n: nat,
    c2: nat,
    last: CellState,
    lastlast: CellState,
) -> bool {
    c2 >= 1 && lastlast.same_val(line[c2 as int]) && !(lastlast is Empty) && !(last is Empty)
}

pub open spec fn desep_line_rec(
    line: Seq<CellState>,
    n: nat,
    c2: nat,
    last: CellState,
    lastlast: CellState,
) -> Seq<CellState>
    decreases n - c2,
{
    if c2 >= n {
        line
    } else {
        let l1 = desep_step(line, n, c2, last, lastlast);
        let last1 = if desep_fires(line, n, c2, last, lastlast) {
            CellState::Empty
        } else {
            last
        };
        desep_line_rec(l1, n, c2 + 1, l1[c2 as int], last1)
    }
}

pub open spec fn desep_line(line: Seq<CellState>, n: nat) -> Seq<CellState> {
    desep_line_rec(line, n, 0, CellState::Empty, CellState::Empty)
}

pub open spec fn desep_grid(g: Seq<Seq<CellState>>, n: nat) -> Seq<Seq<CellState>> {
    Seq::new(n, |i: int| desep_line(g[i], n))
}

// The inverse of Fill-Majority clears, in an exactly balanced line, every
// cell of one digit; which digit is a fresh random draw, so even at full
// probability only the two possible outcomes can be stated.
pub open spec fn clear_zeros(line: Seq<CellState>) -> Seq<CellState> {
    line.map_values(
        |c: CellState|
            if c is Zero {
                CellState::Empty
            } else {
                c
            },
    )
}

pub open spec fn clear_ones(line: Seq<CellState>) -> Seq<CellState> {
    line.map_values(
        |c: CellState|
            if c is One {
                CellState::Empty
            } else {
                c
            },
    )
}

/// What one line looks like after the inverse of Fill-Majority at full
/// probability: an exactly balanced line loses one digit family, any other
/// line is untouched.
pub open spec fn defill_line_post(orig: Seq<CellState>, res: Seq<CellState>, n: nat) -> bool {
    if cnt_one(orig) == n / 2 && cnt_zero(orig) == n / 2 {
        res == clear_zeros(orig) || res == clear_ones(orig)
    } else {
        res == orig
    }
}

// The inverse of Surround-Pairs: the two cells around a pair of adjacent
// equal digits are cleared, whatever they held.
pub open spec fn desur_step(line: Seq<CellState>, n: nat, c2: nat, last: CellState) -> Seq<
    CellState,
> {
    if last.same_val(line[c2 as int]) && !(last is Empty) {
        let la = if c2 >= 2 {
            line.update(c2 - 2, CellState::Empty)
        } else {
            line
        };
        let lb = if c2 + 1 < n {
            la.update(c2 + 1 as int, CellState::Empty)
        } else {
            la
        };
        lb
    } else {
        line
    }
}

pub open spec fn desur_line_rec(line: Seq<CellState>, n: nat, c2: nat, last: CellState) -> Seq<
    CellState,
>
    decreases n - c2,
{
    if c2 >= n {
        line
    } else {
        let l1 = desur_step(line, n, c2, last);
        desur_line_rec(l1, n, c2 + 1, l1[c2 as int])
    }
}

pub open spec fn desur_line(line: Seq<CellState>, n: nat) -> Seq<CellState> {
    desur_line_rec(line, n, 0, CellState::Empty)
}

pub open spec fn desur_grid(g: Seq<Seq<CellState>>, n: nat) -> Seq<Seq<CellState>> {
    Seq::new(n, |i: int| desur_line(g[i], n))
}

// ---------------------------------------------------------------------------
// Every rule only fills empty cells and keeps the grid's shape.
// ---------------------------------------------------------------------------

pub proof fn lemma_fill_line_refines(line: Seq<CellState>, n: nat)
    ensures
        line_refines(line, fill_line(line, n)),
        fill_line(line, n).len() == line.len(),
{
}

pub proof fn lemma_sur_step_refines(line: Seq<CellState>, n: nat, c2: nat, last: CellState)
    requires
        line.len() == n,
        c2 < n,
    ensures
        line_refines(line, sur_step(line, n, c2, last)),
        sur_step(line, n, c2, last).len() == n,
        sur_step(line, n, c2, last)[c2 as int] == line[c2 as int],
{
}

pub proof fn lemma_sur_line_rec_refines(line: Seq<CellState>, n: nat, c2: nat, last: CellState)
    requires
        line.len() == n,
        c2 <= n,
    ensures
        line_refines(line, sur_line_rec(line, n, c2, last)),
        sur_line_rec(line, n, c2, last).len() == n,
    decreases n - c2,
{
    if c2 < n {
        let l1 = sur_step(line, n, c2, last);
        lemma_sur_step_refines(line, n, c2, last);
        lemma_sur_line_rec_refines(l1, n, c2 + 1, l1[c2 as int]);
        lemma_line_refines_trans(line, l1, sur_line_rec(l1, n, c2 + 1, l1[c2 as int]));
    }
}

pub proof fn lemma_sep_step_refines(
    line: Seq<CellState>,
    n: nat,
    c2: nat,
    last: CellState,
    lastlast: CellState,
)
    requires
        line.len() == n,
        c2 < n,
        c2 >= 1 ==> last == line[c2 - 1],
    ensures
        line_refines(line, sep_step(line, n, c2, last, lastlast)),
        sep_step(line, n, c2, last, lastlast).len() == n,
        sep_step(line, n, c2, last, lastlast)[c2 as int] == line[c2 as int],
{
}

pub proof fn lemma_sep_line_rec_refines(
    line: Seq<CellState>,
    n: nat,
    c2: nat,
    last: CellState,
    lastlast: CellState,
)
    requires
        line.len() == n,
        c2 <= n,
        c2 >= 1 ==> last == line[c2 - 1],
    ensures
        line_refines(line, sep_line_rec(line, n, c2, last, lastlast)),
        sep_line_rec(line, n, c2, last, lastlast).len() == n,
    decreases n - c2,
{
    if c2 < n {
        let l1 = sep_step(line, n, c2, last, lastlast);
        lemma_sep_step_refines(line, n, c2, last, lastlast);
        lemma_sep_line_rec_refines(l1, n, c2 + 1, l1[c2 as int], last);
        lemma_line_refines_trans(line, l1, sep_line_rec(l1, n, c2 + 1, l1[c2 as int], last));
    }
}

pub proof fn lemma_fill_grid_refines(g: Seq<Seq<CellState>>, n: nat)
    requires
        is_grid(g, n),
    ensures
        is_grid(fill_grid(g, n), n),
        grid_refines(g, fill_grid(g, n)),
{
    let r = fill_grid(g, n);
    assert forall|i: int| 0 <= i < n implies line_refines(#[trigger] g[i], #[trigger] r[i]) by {
        lemma_fill_line_refines(g[i], n);
    }
    assert forall|i: int| 0 <= i < n implies (#[trigger] r[i]).len() == n by {
        lemma_fill_line_refines(g[i], n);
    }
}

pub proof fn lemma_sur_grid_refines(g: Seq<Seq<CellState>>, n: nat)
    requires
        is_grid(g, n),
    ensures
        is_grid(sur_grid(g, n), n),
        grid_refines(g, sur_grid(g, n)),
{
    let r = sur_grid(g, n);
    assert forall|i: int| 0 <= i < n implies line_refines(#[trigger] g[i], #[trigger] r[i])
        && (#[trigger] r[i]).len() == n by {
        lemma_sur_line_rec_refines(g[i], n, 0, CellState::Empty);
    }
}

pub proof fn lemma_sep_grid_refines(g: Seq<Seq<CellState>>, n: nat)
    requires
        is_grid(g, n),
    ensures
        is_grid(sep_grid(g, n), n),
        grid_refines(g, sep_grid(g, n)),
{
    let r = sep_grid(g, n);
    assert forall|i: int| 0 <= i < n implies line_refines(#[trigger] g[i], #[trigger] r[i])
        && (#[trigger] r[i]).len() == n by {
        lemma_sep_line_rec_refines(g[i], n, 0, CellState::Empty, CellState::Empty);
    }
}

/// Both-axis application of each rule also only fills empty cells.
pub proof fn lemma_fill_both_refines(g: Seq<Seq<CellState>>, n: nat)
    requires
        is_grid(g, n),
    ensures
        is_grid(fill_both(g, n), n),
        grid_refines(g, fill_both(g, n)),
{
    let g1 = fill_grid(g, n);
    lemma_fill_grid_refines(g, n);
    let t1 = transpose(g1, n);
    lemma_transpose_is_grid(g1, n);
    let g2 = fill_grid(t1, n);
    lemma_fill_grid_refines(t1, n);
    lemma_transpose_is_grid(g2, n);
    lemma_transpose_refines(t1, g2, n);
    lemma_transpose_transpose(g1, n);
    lemma_grid_refines_trans(g, g1, transpose(g2, n));
}

pub proof fn lemma_sur_both_refines(g: Seq<Seq<CellState>>, n: nat)
    requires
        is_grid(g, n),
    ensures
        is_grid(sur_both(g, n), n),
        grid_refines(g, sur_both(g, n)),
{
    let g1 = sur_grid(g, n);
    lemma_sur_grid_refines(g, n);
    let t1 = transpose(g1, n);
    lemma_transpose_is_grid(g1, n);
    let g2 = sur_grid(t1, n);
    lemma_sur_grid_refines(t1, n);
    lemma_transpose_is_grid(g2, n);
    lemma_transpose_refines(t1, g2, n);
    lemma_transpose_transpose(g1, n);
    lemma_grid_refines_trans(g, g1, transpose(g2, n));
}

pub proof fn lemma_sep_both_refines(g: Seq<Seq<CellState>>, n: nat)
    requires
        is_grid(g, n),
    ensures
        is_grid(sep_both(g, n), n),
        grid_refines(g, sep_both(g, n)),
{
    let g1 = sep_grid(g, n);
    lemma_sep_grid_refines(g, n);
    let t1 = transpose(g1, n);
    lemma_transpose_is_grid(g1, n);
    let g2 = sep_grid(t1, n);
    lemma_sep_grid_refines(t1, n);
    lemma_transpose_is_grid(g2, n);
    lemma_transpose_refines(t1, g2, n);
    lemma_transpose_transpose(g1, n);
    lemma_grid_refines_trans(g, g1, transpose(g2, n));
}

// ---------------------------------------------------------------------------
// The fixpoint of the three rules in the order the solvability oracle runs
// them: Surround-Pairs, Separate-Gaps, Fill-Majority, over and over until a
// full round changes nothing. It terminates because a changing round fills
// at least one empty cell.
// ---------------------------------------------------------------------------

pub open spec fn solve_step(g: Seq<Seq<CellState>>, n: nat) -> Seq<Seq<CellState>> {
    fill_both(sep_both(sur_both(g, n), n), n)
}

pub proof fn lemma_solve_step_refines(g: Seq<Seq<CellState>>, n: nat)
    requires
        is_grid(g, n),
    ensures
        is_grid(solve_step(g, n), n),
        grid_refines(g, solve_step(g, n)),
{
    let a = sur_both(g, n);
    let b = sep_both(a, n);
    lemma_sur_both_refines(g, n);
    lemma_sep_both_refines(a, n);
    lemma_fill_both_refines(b, n);
    lemma_grid_refines_trans(g, a, b);
    lemma_grid_refines_trans(g, b, solve_step(g, n));
}

pub open spec fn propagate(g: Seq<Seq<CellState>>, n: nat) -> Seq<Seq<CellState>>
    decreases grid_empties(g),
    via propagate_decreases
{
    if !is_grid(g, n) {
        g
    } else if solve_step(g, n) == g {
        g
    } else {
        propagate(solve_step(g, n), n)
    }
}

#[via_fn]
proof fn propagate_decreases(g: Seq<Seq<CellState>>, n: nat) {
    if is_grid(g, n) && solve_step(g, n) != g {
        lemma_solve_step_refines(g, n);
        lemma_grid_empties_refines(g, solve_step(g, n));
    }
}

/// The heuristic solvability oracle: whether the rule fixpoint alone,
/// with no guessing, reaches a complete and rule-consistent grid. This is
/// not a complete solver: a grid that needs look-ahead counts as
/// unsolvable, a deliberate and inherited limitation.
pub open spec fn spec_solvable(g: Seq<Seq<CellState>>, n: nat) -> bool {
    crate::model::grid_complete(propagate(g, n), n) && crate::model::grid_ok(propagate(g, n), n)
}

// ---------------------------------------------------------------------------
// On a grid with no determined cell, no rule has a pattern to act on: the
// fixpoint is the empty grid itself, which is not complete, so the oracle
// never calls an empty grid solvable.
// ---------------------------------------------------------------------------

proof fn lemma_fill_line_empty_id(line: Seq<CellState>, n: nat)
    requires
        line.len() == n,
        n >= 2,
        forall|j: int| 0 <= j < line.len() ==> (#[trigger] line[j]) is Empty,
    ensures
        fill_line(line, n) == line,
{
    crate::model::lemma_all_empty_counts(line);
}

proof fn lemma_sur_line_rec_empty_id(line: Seq<CellState>, n: nat, c2: nat, last: CellState)
    requires
        line.len() == n,
        forall|j: int| 0 <= j < line.len() ==> (#[trigger] line[j]) is Empty,
        last is Empty,
        c2 <= n,
    ensures
        sur_line_rec(line, n, c2, last) == line,
    decreases n - c2,
{
    if c2 < n {
        assert(sur_step(line, n, c2, last) == line);
        lemma_sur_line_rec_empty_id(line, n, c2 + 1, line[c2 as int]);
    }
}

proof fn lemma_sep_line_rec_empty_id(
    line: Seq<CellState>,
    n: nat,
    c2: nat,
    last: CellState,
    lastlast: CellState,
)
    requires
        line.len() == n,
        forall|j: int| 0 <= j < line.len() ==> (#[trigger] line[j]) is Empty,
        lastlast is Empty,
        last is Empty,
        c2 <= n,
    ensures
        sep_line_rec(line, n, c2, last, lastlast) == line,
    decreases n - c2,
{
    if c2 < n {
        assert(sep_step(line, n, c2, last, lastlast) == line);
        lemma_sep_line_rec_empty_id(line, n, c2 + 1, line[c2 as int], last);
    }
}

proof fn lemma_empty_transpose(g: Seq<Seq<CellState>>, n: nat)
    requires
        is_grid(g, n),
        forall|i: int, j: int| 0 <= i < n && 0 <= j < n ==> ((#[trigger] g[i][j]) is Empty),
    ensures
        forall|i: int, j: int|
            0 <= i < n && 0 <= j < n ==> ((#[trigger] transpose(g, n)[i][j]) is Empty),
{
    assert forall|i: int, j: int|
        0 <= i < n && 0 <= j < n implies ((#[trigger] transpose(g, n)[i][j]) is Empty) by {
        assert(transpose(g, n)[i][j] == g[j][i]);
    }
}

proof fn lemma_solve_step_empty_id(g: Seq<Seq<CellState>>, n: nat)
    requires
        is_grid(g, n),
        n >= 2,
        forall|i: int, j: int| 0 <= i < n && 0 <= j < n ==> ((#[trigger] g[i][j]) is Empty),
    ensures
        solve_step(g, n) == g,
{
    let t = transpose(g, n);
    lemma_empty_transpose(g, n);
    lemma_transpose_is_grid(g, n);
    assert forall|i: int| 0 <= i < n implies #[trigger] sur_grid(g, n)[i] == g[i] by {
        assert(forall|j: int| 0 <= j < g[i].len() ==> (#[trigger] g[i][j]) is Empty);
        lemma_sur_line_rec_empty_id(g[i], n, 0, CellState::Empty);
    }
    assert(sur_grid(g, n) =~= g);
    assert forall|i: int| 0 <= i < n implies #[trigger] sur_grid(t, n)[i] == t[i] by {
        assert(forall|j: int| 0 <= j < t[i].len() ==> (#[trigger] t[i][j]) is Empty);
        lemma_sur_line_rec_empty_id(t[i], n, 0, CellState::Empty);
    }
    assert(sur_grid(t, n) =~= t);
    lemma_transpose_transpose(g, n);
    assert(sur_both(g, n) == g);
    assert forall|i: int| 0 <= i < n implies #[trigger] sep_grid(g, n)[i] == g[i] by {
        assert(forall|j: int| 0 <= j < g[i].len() ==> (#[trigger] g[i][j]) is Empty);
        lemma_sep_line_rec_empty_id(g[i], n, 0, CellState::Empty, CellState::Empty);
    }
    assert(sep_grid(g, n) =~= g);
    assert forall|i: int| 0 <= i < n implies #[trigger] sep_grid(t, n)[i] == t[i] by {
        assert(forall|j: int| 0 <= j < t[i].len() ==> (#[trigger] t[i][j]) is Empty);
        lemma_sep_line_rec_empty_id(t[i], n, 0, CellState::Empty, CellState::Empty);
    }
    assert(sep_grid(t, n) =~= t);
    assert(sep_both(g, n) == g);
    assert forall|i: int| 0 <= i < n implies #[trigger] fill_grid(g, n)[i] == g[i] by {
        assert(forall|j: int| 0 <= j < g[i].len() ==> (#[trigger] g[i][j]) is Empty);
        lemma_fill_line_empty_id(g[i], n);
    }
    assert(fill_grid(g, n) =~= g);
    assert forall|i: int| 0 <= i < n implies #[trigger] fill_grid(t, n)[i] == t[i] by {
        assert(forall|j: int| 0 <= j < t[i].len() ==> (#[trigger] t[i][j]) is Empty);
        lemma_fill_line_empty_id(t[i], n);
    }
    assert(fill_grid(t, n) =~= t);
    assert(fill_both(g, n) == g);
}

/// The oracle never calls a grid without a single given solvable: the rules
/// find nothing to act on, and the grid is not complete.
pub proof fn lemma_empty_not_solvable(g: Seq<Seq<CellState>>, n: nat)
    requires
        is_grid(g, n),
        n >= 2,
        !crate::model::grid_nonempty(g, n),
    ensures
        !spec_solvable(g, n),
{
    assert forall|i: int, j: int|
        0 <= i < n && 0 <= j < n implies ((#[trigger] g[i][j]) is Empty) by {
        if !(g[i][j] is Empty) {
            assert(crate::model::grid_nonempty(g, n));
        }
    }
    lemma_solve_step_empty_id(g, n);
    assert(propagate(g, n) == g);
    assert(g[0][0] is Empty);
    assert(!crate::model::line_complete(g[0]));
}

/// The fixpoint leaves a grid on which no rule fires any more; running it on
/// such a grid returns the grid itself. Together these give idempotence:
/// a second run of the rule-engine fixpoint changes nothing.
pub proof fn lemma_propagate_fix(g: Seq<Seq<CellState>>, n: nat)
    requires
        is_grid(g, n),
    ensures
        is_grid(propagate(g, n), n),
        grid_refines(g, propagate(g, n)),
        solve_step(propagate(g, n), n) == propagate(g, n),
        propagate(propagate(g, n), n) == propagate(g, n),
    decreases grid_empties(g),
{
    if solve_step(g, n) == g {
        assert(propagate(g, n) == g);
    } else {
        lemma_solve_step_refines(g, n);
        lemma_grid_empties_refines(g, solve_step(g, n));
        lemma_propagate_fix(solve_step(g, n), n);
        lemma_grid_refines_trans(g, solve_step(g, n), propagate(solve_step(g, n), n));
    }
}


// ---------------------------------------------------------------------------
// The rules ignore the locked flag: on value-equivalent grids every pass,
// and hence the whole fixpoint, produces value-equivalent results.
// ---------------------------------------------------------------------------

proof fn lemma_fill_line_val_eq(a: Seq<CellState>, b: Seq<CellState>, n: nat)
    requires
        line_val_eq(a, b),
    ensures
        line_val_eq(fill_line(a, n), fill_line(b, n)),
{
    lemma_cnt_val_eq(a, b);
    let fa = fill_line(a, n);
    let fb = fill_line(b, n);
    assert forall|j: int| 0 <= j < fa.len() implies (#[trigger] fa[j]).same_val(fb[j]) by {
        assert(a[j].same_val(b[j]));
    }
}

proof fn lemma_sur_line_rec_val_eq(
    a: Seq<CellState>,
    b: Seq<CellState>,
    n: nat,
    c2: nat,
    last_a: CellState,
    last_b: CellState,
)
    requires
        a.len() == n,
        line_val_eq(a, b),
        last_a.same_val(last_b),
        c2 <= n,
    ensures
        line_val_eq(sur_line_rec(a, n, c2, last_a), sur_line_rec(b, n, c2, last_b)),
    decreases n - c2,
{
    if c2 < n {
        let la = sur_step(a, n, c2, last_a);
        let lb = sur_step(b, n, c2, last_b);
        assert(a[c2 as int].same_val(b[c2 as int]));
        assert(line_val_eq(la, lb)) by {
            assert forall|j: int| 0 <= j < la.len() implies (#[trigger] la[j]).same_val(lb[j]) by {
                assert(a[j].same_val(b[j]));
                if c2 >= 2 {
                    assert(a[c2 - 2].same_val(b[c2 - 2]));
                }
                if c2 + 1 < n {
                    assert(a[c2 + 1 as int].same_val(b[c2 + 1 as int]));
                }
            }
        }
        assert(la[c2 as int].same_val(lb[c2 as int]));
        lemma_sur_line_rec_val_eq(la, lb, n, c2 + 1, la[c2 as int], lb[c2 as int]);
    }
}

proof fn lemma_sep_line_rec_val_eq(
    a: Seq<CellState>,
    b: Seq<CellState>,
    n: nat,
    c2: nat,
    last_a: CellState,
    last_b: CellState,
    ll_a: CellState,
    ll_b: CellState,
)
    requires
        a.len() == n,
        line_val_eq(a, b),
        last_a.same_val(last_b),
        ll_a.same_val(ll_b),
        c2 <= n,
    ensures
        line_val_eq(sep_line_rec(a, n, c2, last_a, ll_a), sep_line_rec(b, n, c2, last_b, ll_b)),
    decreases n - c2,
{
    if c2 < n {
        let la = sep_step(a, n, c2, last_a, ll_a);
        let lb = sep_step(b, n, c2, last_b, ll_b);
        assert(a[c2 as int].same_val(b[c2 as int]));
        assert(line_val_eq(la, lb)) by {
            assert forall|j: int| 0 <= j < la.len() implies (#[trigger] la[j]).same_val(lb[j]) by {
                assert(a[j].same_val(b[j]));
            }
        }
        assert(la[c2 as int].same_val(lb[c2 as int]));
        lemma_sep_line_rec_val_eq(la, lb, n, c2 + 1, la[c2 as int], lb[c2 as int], last_a, last_b);
    }
}

proof fn lemma_grids_val_eq_pointwise(a: Seq<Seq<CellState>>, b: Seq<Seq<CellState>>, n: nat)
    requires
        a.len() == n,
        b.len() == n,
        forall|i: int| 0 <= i < n ==> line_val_eq(#[trigger] a[i], #[trigger] b[i]),
    ensures
        grid_val_eq(a, b),
{
}

proof fn lemma_solve_step_val_eq(a: Seq<Seq<CellState>>, b: Seq<Seq<CellState>>, n: nat)
    requires
        is_grid(a, n),
        is_grid(b, n),
        grid_val_eq(a, b),
    ensures
        grid_val_eq(solve_step(a, n), solve_step(b, n)),
        is_grid(solve_step(a, n), n),
        is_grid(solve_step(b, n), n),
{
    let sa = sur_both_val_eq_helper(a, b, n);
    let a1 = sur_both(a, n);
    let b1 = sur_both(b, n);
    lemma_sur_both_refines(a, n);
    lemma_sur_both_refines(b, n);
    let a2 = sep_both(a1, n);
    let b2 = sep_both(b1, n);
    sep_both_val_eq_helper(a1, b1, n);
    lemma_sep_both_refines(a1, n);
    lemma_sep_both_refines(b1, n);
    fill_both_val_eq_helper(a2, b2, n);
    lemma_fill_both_refines(a2, n);
    lemma_fill_both_refines(b2, n);
}

proof fn sur_grid_val_eq(a: Seq<Seq<CellState>>, b: Seq<Seq<CellState>>, n: nat)
    requires
        is_grid(a, n),
        is_grid(b, n),
        grid_val_eq(a, b),
    ensures
        grid_val_eq(sur_grid(a, n), sur_grid(b, n)),
{
    let ra = sur_grid(a, n);
    let rb = sur_grid(b, n);
    assert forall|i: int| 0 <= i < n implies line_val_eq(#[trigger] ra[i], #[trigger] rb[i]) by {
        assert(line_val_eq(a[i], b[i]));
        lemma_sur_line_rec_val_eq(a[i], b[i], n, 0, CellState::Empty, CellState::Empty);
    }
}

proof fn sep_grid_val_eq(a: Seq<Seq<CellState>>, b: Seq<Seq<CellState>>, n: nat)
    requires
        is_grid(a, n),
        is_grid(b, n),
        grid_val_eq(a, b),
    ensures
        grid_val_eq(sep_grid(a, n), sep_grid(b, n)),
{
    let ra = sep_grid(a, n);
    let rb = sep_grid(b, n);
    assert forall|i: int| 0 <= i < n implies line_val_eq(#[trigger] ra[i], #[trigger] rb[i]) by {
        assert(line_val_eq(a[i], b[i]));
        lemma_sep_line_rec_val_eq(
            a[i],
            b[i],
            n,
            0,
            CellState::Empty,
            CellState::Empty,
            CellState::Empty,
            CellState::Empty,
        );
    }
}

proof fn fill_grid_val_eq(a: Seq<Seq<CellState>>, b: Seq<Seq<CellState>>, n: nat)
    requires
        is_grid(a, n),
        is_grid(b, n),
        grid_val_eq(a, b),
    ensures
        grid_val_eq(fill_grid(a, n), fill_grid(b, n)),
{
    let ra = fill_grid(a, n);
    let rb = fill_grid(b, n);
    assert forall|i: int| 0 <= i < n implies line_val_eq(#[trigger] ra[i], #[trigger] rb[i]) by {
        assert(line_val_eq(a[i], b[i]));
        lemma_fill_line_val_eq(a[i], b[i], n);
    }
}

proof fn sur_both_val_eq_helper(a: Seq<Seq<CellState>>, b: Seq<Seq<CellState>>, n: nat)
    requires
        is_grid(a, n),
        is_grid(b, n),
        grid_val_eq(a, b),
    ensures
        grid_val_eq(sur_both(a, n), sur_both(b, n)),
{
    sur_grid_val_eq(a, b, n);
    lemma_sur_grid_refines(a, n);
    lemma_sur_grid_refines(b, n);
    lemma_transpose_val_eq(sur_grid(a, n), sur_grid(b, n), n);
    lemma_transpose_is_grid(sur_grid(a, n), n);
    lemma_transpose_is_grid(sur_grid(b, n), n);
    sur_grid_val_eq(transpose(sur_grid(a, n), n), transpose(sur_grid(b, n), n), n);
    lemma_sur_grid_refines(transpose(sur_grid(a, n), n), n);
    lemma_sur_grid_refines(transpose(sur_grid(b, n), n), n);
    lemma_transpose_val_eq(
        sur_grid(transpose(sur_grid(a, n), n), n),
        sur_grid(transpose(sur_grid(b, n), n), n),
        n,
    );
}

proof fn sep_both_val_eq_helper(a: Seq<Seq<CellState>>, b: Seq<Seq<CellState>>, n: nat)
    requires
        is_grid(a, n),
        is_grid(b, n),
        grid_val_eq(a, b),
    ensures
        grid_val_eq(sep_both(a, n), sep_both(b, n)),
{
    sep_grid_val_eq(a, b, n);
    lemma_sep_grid_refines(a, n);
    lemma_sep_grid_refines(b, n);
    lemma_transpose_val_eq(sep_grid(a, n), sep_grid(b, n), n);
    lemma_transpose_is_grid(sep_grid(a, n), n);
    lemma_transpose_is_grid(sep_grid(b, n), n);
    sep_grid_val_eq(transpose(sep_grid(a, n), n), transpose(sep_grid(b, n), n), n);
    lemma_sep_grid_refines(transpose(sep_grid(a, n), n), n);
    lemma_sep_grid_refines(transpose(sep_grid(b, n), n), n);
    lemma_transpose_val_eq(
        sep_grid(transpose(sep_grid(a, n), n), n),
        sep_grid(transpose(sep_grid(b, n), n), n),
        n,
    );
}

proof fn fill_both_val_eq_helper(a: Seq<Seq<CellState>>, b: Seq<Seq<CellState>>, n: nat)
    requires
        is_grid(a, n),
        is_grid(b, n),
        grid_val_eq(a, b),
    ensures
        grid_val_eq(fill_both(a, n), fill_both(b, n)),
{
    fill_grid_val_eq(a, b, n);
    lemma_fill_grid_refines(a, n);
    lemma_fill_grid_refines(b, n);
    lemma_transpose_val_eq(fill_grid(a, n), fill_grid(b, n), n);
    lemma_transpose_is_grid(fill_grid(a, n), n);
    lemma_transpose_is_grid(fill_grid(b, n), n);
    fill_grid_val_eq(transpose(fill_grid(a, n), n), transpose(fill_grid(b, n), n), n);
    lemma_fill_grid_refines(transpose(fill_grid(a, n), n), n);
    lemma_fill_grid_refines(transpose(fill_grid(b, n), n), n);
    lemma_transpose_val_eq(
        fill_grid(transpose(fill_grid(a, n), n), n),
        fill_grid(transpose(fill_grid(b, n), n), n),
        n,
    );
}

pub proof fn lemma_propagate_val_eq(a: Seq<Seq<CellState>>, b: Seq<Seq<CellState>>, n: nat)
    requires
        is_grid(a, n),
        is_grid(b, n),
        grid_val_eq(a, b),
    ensures
        grid_val_eq(propagate(a, n), propagate(b, n)),
        is_grid(propagate(a, n), n),
        is_grid(propagate(b, n), n),
    decreases grid_empties(a),
{
    lemma_solve_step_val_eq(a, b, n);
    lemma_solve_step_refines(a, n);
    lemma_solve_step_refines(b, n);
    if solve_step(a, n) == a {
        assert(grid_val_eq(b, solve_step(b, n))) by {
            assert forall|i: int|
                0 <= i < n implies line_val_eq(#[trigger] b[i], #[trigger] solve_step(b, n)[i]) by {
                assert forall|j: int|
                    0 <= j < n implies (#[trigger] b[i][j]).same_val(solve_step(b, n)[i][j]) by {
                    assert(b[i][j].same_val(a[i][j]) || a[i][j].same_val(b[i][j]));
                    assert(a[i][j] == solve_step(a, n)[i][j]);
                    assert(solve_step(a, n)[i][j].same_val(solve_step(b, n)[i][j]));
                }
            }
        }
        lemma_refines_val_eq(b, solve_step(b, n), n);
        assert(propagate(a, n) == a);
        assert(propagate(b, n) == b);
    } else {
        assert(solve_step(b, n) != b) by {
            if solve_step(b, n) == b {
                assert(grid_val_eq(a, solve_step(a, n))) by {
                    assert forall|i: int|
                        0 <= i < n implies line_val_eq(
                        #[trigger] a[i],
                        #[trigger] solve_step(a, n)[i],
                    ) by {
                        assert forall|j: int|
                            0 <= j < n implies (#[trigger] a[i][j]).same_val(
                            solve_step(a, n)[i][j],
                        ) by {
                            assert(a[i][j].same_val(b[i][j]));
                            assert(b[i][j] == solve_step(b, n)[i][j]);
                            assert(solve_step(a, n)[i][j].same_val(solve_step(b, n)[i][j]));
                        }
                    }
                }
                lemma_refines_val_eq(a, solve_step(a, n), n);
            }
        }
        lemma_grid_empties_refines(a, solve_step(a, n));
        lemma_propagate_val_eq(solve_step(a, n), solve_step(b, n), n);
    }
}

/// The oracle ignores the locked flag: value-equivalent grids are equally
/// solvable.
pub proof fn lemma_solvable_val_eq(a: Seq<Seq<CellState>>, b: Seq<Seq<CellState>>, n: nat)
    requires
        is_grid(a, n),
        is_grid(b, n),
        grid_val_eq(a, b),
    ensures
        spec_solvable(a, n) == spec_solvable(b, n),
{
    lemma_propagate_val_eq(a, b, n);
    lemma_grid_complete_val_eq(propagate(a, n), propagate(b, n), n);
    lemma_grid_ok_val_eq(propagate(a, n), propagate(b, n), n);
}

// ---------------------------------------------------------------------------
// On a fully determined grid no rule has anything to fill, so the fixpoint
// is the grid itself: a complete, consistent grid is solvable.
// ---------------------------------------------------------------------------

proof fn lemma_fill_line_complete_id(line: Seq<CellState>, n: nat)
    requires
        line_complete(line),
    ensures
        fill_line(line, n) == line,
{
    lemma_cnt_empty_complete(line);
}

proof fn lemma_sur_line_rec_complete_id(line: Seq<CellState>, n: nat, c2: nat, last: CellState)
    requires
        line.len() == n,
        line_complete(line),
        c2 <= n,
    ensures
        sur_line_rec(line, n, c2, last) == line,
    decreases n - c2,
{
    if c2 < n {
        let l1 = sur_step(line, n, c2, last);
        assert(l1 == line);
        lemma_sur_line_rec_complete_id(line, n, c2 + 1, line[c2 as int]);
    }
}

proof fn lemma_sep_line_rec_complete_id(
    line: Seq<CellState>,
    n: nat,
    c2: nat,
    last: CellState,
    lastlast: CellState,
)
    requires
        line.len() == n,
        line_complete(line),
        c2 <= n,
        c2 >= 1 ==> last == line[c2 - 1],
    ensures
        sep_line_rec(line, n, c2, last, lastlast) == line,
    decreases n - c2,
{
    if c2 < n {
        let l1 = sep_step(line, n, c2, last, lastlast);
        assert(l1 == line);
        lemma_sep_line_rec_complete_id(line, n, c2 + 1, line[c2 as int], last);
    }
}

proof fn lemma_complete_transpose(g: Seq<Seq<CellState>>, n: nat)
    requires
        is_grid(g, n),
        grid_complete(g, n),
    ensures
        grid_complete(transpose(g, n), n),
{
    let t = transpose(g, n);
    assert forall|i: int| 0 <= i < n implies line_complete(#[trigger] t[i]) by {
        assert forall|j: int| 0 <= j < t[i].len() implies !((#[trigger] t[i][j]) is Empty) by {
            assert(t[i][j] == g[j][i]);
            assert(line_complete(g[j]));
        }
    }
}

proof fn lemma_sur_grid_complete_id(g: Seq<Seq<CellState>>, n: nat)
    requires
        is_grid(g, n),
        grid_complete(g, n),
    ensures
        sur_grid(g, n) == g,
{
    let r = sur_grid(g, n);
    assert forall|i: int| 0 <= i < n implies #[trigger] r[i] == g[i] by {
        lemma_sur_line_rec_complete_id(g[i], n, 0, CellState::Empty);
    }
    assert(r =~= g);
}

proof fn lemma_sep_grid_complete_id(g: Seq<Seq<CellState>>, n: nat)
    requires
        is_grid(g, n),
        grid_complete(g, n),
    ensures
        sep_grid(g, n) == g,
{
    let r = sep_grid(g, n);
    assert forall|i: int| 0 <= i < n implies #[trigger] r[i] == g[i] by {
        lemma_sep_line_rec_complete_id(g[i], n, 0, CellState::Empty, CellState::Empty);
    }
    assert(r =~= g);
}

proof fn lemma_fill_grid_complete_id(g: Seq<Seq<CellState>>, n: nat)
    requires
        is_grid(g, n),
        grid_complete(g, n),
    ensures
        fill_grid(g, n) == g,
{
    let r = fill_grid(g, n);
    assert forall|i: int| 0 <= i < n implies #[trigger] r[i] == g[i] by {
        lemma_fill_line_complete_id(g[i], n);
    }
    assert(r =~= g);
}

proof fn lemma_solve_step_complete_id(g: Seq<Seq<CellState>>, n: nat)
    requires
        is_grid(g, n),
        grid_complete(g, n),
    ensures
        solve_step(g, n) == g,
{
    lemma_sur_grid_complete_id(g, n);
    lemma_complete_transpose(g, n);
    lemma_transpose_is_grid(g, n);
    lemma_sur_grid_complete_id(transpose(g, n), n);
    lemma_transpose_transpose(g, n);
    assert(sur_both(g, n) == g);
    lemma_sep_grid_complete_id(g, n);
    lemma_sep_grid_complete_id(transpose(g, n), n);
    assert(sep_both(g, n) == g);
    lemma_fill_grid_complete_id(g, n);
    lemma_fill_grid_complete_id(transpose(g, n), n);
    assert(fill_both(g, n) == g);
}

/// A complete and rule-consistent grid is its own fixpoint, so the oracle
/// calls it solvable.
pub proof fn lemma_complete_ok_solvable(g: Seq<Seq<CellState>>, n: nat)
    requires
        is_grid(g, n),
        grid_complete(g, n),
        grid_ok(g, n),
    ensures
        spec_solvable(g, n),
{
    lemma_solve_step_complete_id(g, n);
    assert(propagate(g, n) == g);
}

} // verus!
