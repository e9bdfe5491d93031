use vstd::prelude::*;

use crate::cell::CellState;

verus! {

// ---------------------------------------------------------------------------
// The mathematical model of a grid: a sequence of lines, each a sequence of
// cells. A line is a row; a column becomes a row of the transposed grid, so
// every rule and every predicate is stated once, over lines.
// ---------------------------------------------------------------------------

pub open spec fn is_grid(g: Seq<Seq<CellState>>, n: nat) -> bool {
    g.len() == n && (forall|i: int| 0 <= i < n ==> (#[trigger] g[i]).len() == n)
}

/// The grid with the cell at line `i`, offset `j` replaced by `v`.
pub open spec fn update2(g: Seq<Seq<CellState>>, i: int, j: int, v: CellState) -> Seq<
    Seq<CellState>,
> {
    g.update(i, g[i].update(j, v))
}

pub open spec fn transpose(g: Seq<Seq<CellState>>, n: nat) -> Seq<Seq<CellState>> {
    Seq::new(n, |i: int| Seq::new(n, |j: int| g[j][i]))
}

pub proof fn lemma_transpose_is_grid(g: Seq<Seq<CellState>>, n: nat)
    ensures
        is_grid(transpose(g, n), n),
{
}

pub proof fn lemma_transpose_transpose(g: Seq<Seq<CellState>>, n: nat)
    requires
        is_grid(g, n),
    ensures
        transpose(transpose(g, n), n) == g,
{
    let t = transpose(transpose(g, n), n);
    assert forall|i: int| 0 <= i < n implies #[trigger] t[i] =~= g[i] by {}
    assert(t =~= g);
}

pub proof fn lemma_transpose_update(g: Seq<Seq<CellState>>, n: nat, i: int, j: int, v: CellState)
    requires
        is_grid(g, n),
        0 <= i < n,
        0 <= j < n,
    ensures
        transpose(update2(g, i, j, v), n) == update2(transpose(g, n), j, i, v),
{
    let a = transpose(update2(g, i, j, v), n);
    let b = update2(transpose(g, n), j, i, v);
    assert forall|p: int| 0 <= p < n implies #[trigger] a[p] =~= b[p] by {}
    assert(a =~= b);
}

/// Two grids of the same shape are equal when all their cells are.
pub proof fn lemma_grid_ext(a: Seq<Seq<CellState>>, b: Seq<Seq<CellState>>, n: nat)
    requires
        is_grid(a, n),
        is_grid(b, n),
        forall|i: int, j: int| 0 <= i < n && 0 <= j < n ==> a[i][j] == #[trigger] b[i][j],
    ensures
        a == b,
{
    assert forall|i: int| 0 <= i < n implies #[trigger] a[i] =~= b[i] by {}
    assert(a =~= b);
}

// ---------------------------------------------------------------------------
// Cell counts of a line, and of a whole grid.
// ---------------------------------------------------------------------------

pub open spec fn cnt_empty(s: Seq<CellState>) -> nat
    decreases s.len(),
{
    if s.len() == 0 {
        0
    } else {
        cnt_empty(s.drop_last()) + if s.last() is Empty {
            1nat
        } else {
            0nat
        }
    }
}

pub open spec fn cnt_zero(s: Seq<CellState>) -> nat
    decreases s.len(),
{
    if s.len() == 0 {
        0
    } else {
        cnt_zero(s.drop_last()) + if s.last() is Zero {
            1nat
        } else {
            0nat
        }
    }
}

pub open spec fn cnt_one(s: Seq<CellState>) -> nat
    decreases s.len(),
{
    if s.len() == 0 {
        0
    } else {
        cnt_one(s.drop_last()) + if s.last() is One {
            1nat
        } else {
            0nat
        }
    }
}

pub open spec fn grid_empties(g: Seq<Seq<CellState>>) -> nat
    decreases g.len(),
{
    if g.len() == 0 {
        0
    } else {
        grid_empties(g.drop_last()) + cnt_empty(g.last())
    }
}

pub proof fn lemma_cnt_empty_bound(s: Seq<CellState>)
    ensures
        cnt_empty(s) <= s.len(),
    decreases s.len(),
{
    if s.len() > 0 {
        lemma_cnt_empty_bound(s.drop_last());
    }
}

/// Prefix step: counting one more cell adds its contribution.
pub proof fn lemma_cnt_empty_take_step(s: Seq<CellState>, i: int)
    requires
        0 <= i < s.len(),
    ensures
        cnt_empty(s.take(i + 1)) == cnt_empty(s.take(i)) + if s[i] is Empty {
            1nat
        } else {
            0nat
        },
{
    assert(s.take(i + 1).drop_last() =~= s.take(i));
    assert(s.take(i + 1).last() == s[i]);
}

pub proof fn lemma_cnt_zero_take_step(s: Seq<CellState>, i: int)
    requires
        0 <= i < s.len(),
    ensures
        cnt_zero(s.take(i + 1)) == cnt_zero(s.take(i)) + if s[i] is Zero {
            1nat
        } else {
            0nat
        },
{
    assert(s.take(i + 1).drop_last() =~= s.take(i));
    assert(s.take(i + 1).last() == s[i]);
}

pub proof fn lemma_cnt_one_take_step(s: Seq<CellState>, i: int)
    requires
        0 <= i < s.len(),
    ensures
        cnt_one(s.take(i + 1)) == cnt_one(s.take(i)) + if s[i] is One {
            1nat
        } else {
            0nat
        },
{
    assert(s.take(i + 1).drop_last() =~= s.take(i));
    assert(s.take(i + 1).last() == s[i]);
}

pub proof fn lemma_grid_empties_take_step(g: Seq<Seq<CellState>>, i: int)
    requires
        0 <= i < g.len(),
    ensures
        grid_empties(g.take(i + 1)) == grid_empties(g.take(i)) + cnt_empty(g[i]),
{
    assert(g.take(i + 1).drop_last() =~= g.take(i));
    assert(g.take(i + 1).last() == g[i]);
}

pub proof fn lemma_grid_empties_full(g: Seq<Seq<CellState>>)
    ensures
        grid_empties(g.take(g.len() as int)) == grid_empties(g),
{
    assert(g.take(g.len() as int) =~= g);
}

/// A grid has no empties exactly when every line is fully determined.
pub proof fn lemma_grid_empties_complete(g: Seq<Seq<CellState>>, n: nat)
    requires
        g.len() == n,
    ensures
        (grid_empties(g) == 0) == grid_complete(g, n),
    decreases g.len(),
{
    if g.len() == 0 {
    } else {
        let g0 = g.drop_last();
        lemma_grid_empties_complete(g0, (n - 1) as nat);
        lemma_cnt_empty_complete_iff(g.last());
        if grid_empties(g) == 0 {
            assert forall|i: int| 0 <= i < n implies line_complete(#[trigger] g[i]) by {
                if i < n - 1 {
                    assert(g0[i] == g[i]);
                } else {
                    assert(g[i] == g.last());
                }
            }
        } else {
            if grid_empties(g0) != 0 {
                assert(!grid_complete(g0, (n - 1) as nat));
                assert(exists|i: int|
                    0 <= i < n - 1 && !line_complete(#[trigger] g0[i]));
                let i = choose|i: int| 0 <= i < n - 1 && !line_complete(#[trigger] g0[i]);
                assert(g0[i] == g[i]);
                assert(!line_complete(g[i]));
            } else {
                assert(cnt_empty(g.last()) != 0);
                assert(!line_complete(g.last()));
                assert(g[n - 1] == g.last());
            }
        }
    }
}

/// A line's empty count is zero exactly when it is fully determined.
pub proof fn lemma_cnt_empty_complete_iff(line: Seq<CellState>)
    ensures
        (cnt_empty(line) == 0) == line_complete(line),
{
    if cnt_empty(line) == 0 {
        lemma_cnt_empty_zero_complete(line);
    } else {
        if line_complete(line) {
            lemma_cnt_empty_complete(line);
        }
    }
}

/// A cell is tri-state, so the three counts of a line sum to its length.
pub proof fn lemma_counts_total(s: Seq<CellState>)
    ensures
        cnt_empty(s) + cnt_zero(s) + cnt_one(s) == s.len(),
    decreases s.len(),
{
    if s.len() > 0 {
        lemma_counts_total(s.drop_last());
    }
}

// ---------------------------------------------------------------------------
// Refinement: a deduction step only fills empty cells, never rewrites a
// determined one. `b` refines `a` when every cell of `a` is kept, or was
// empty and is now determined.
// ---------------------------------------------------------------------------

pub open spec fn line_refines(a: Seq<CellState>, b: Seq<CellState>) -> bool {
    &&& a.len() == b.len()
    &&& forall|j: int|
        0 <= j < a.len() ==> (#[trigger] b[j] == a[j] || (a[j] is Empty && !(b[j] is Empty)))
}

pub open spec fn grid_refines(a: Seq<Seq<CellState>>, b: Seq<Seq<CellState>>) -> bool {
    &&& a.len() == b.len()
    &&& forall|i: int| 0 <= i < a.len() ==> line_refines(#[trigger] a[i], #[trigger] b[i])
}

pub proof fn lemma_line_refines_trans(a: Seq<CellState>, b: Seq<CellState>, c: Seq<CellState>)
    requires
        line_refines(a, b),
        line_refines(b, c),
    ensures
        line_refines(a, c),
{
}

pub proof fn lemma_grid_refines_trans(
    a: Seq<Seq<CellState>>,
    b: Seq<Seq<CellState>>,
    c: Seq<Seq<CellState>>,
)
    requires
        grid_refines(a, b),
        grid_refines(b, c),
    ensures
        grid_refines(a, c),
{
    assert forall|i: int| 0 <= i < a.len() implies line_refines(
        #[trigger] a[i],
        #[trigger] c[i],
    ) by {
        lemma_line_refines_trans(a[i], b[i], c[i]);
    }
}

pub proof fn lemma_transpose_refines(a: Seq<Seq<CellState>>, b: Seq<Seq<CellState>>, n: nat)
    requires
        is_grid(a, n),
        is_grid(b, n),
        grid_refines(a, b),
    ensures
        grid_refines(transpose(a, n), transpose(b, n)),
{
    let ta = transpose(a, n);
    let tb = transpose(b, n);
    assert forall|i: int| 0 <= i < n implies line_refines(#[trigger] ta[i], #[trigger] tb[i]) by {
        assert forall|j: int|
            0 <= j < n implies (#[trigger] tb[i][j] == ta[i][j] || (ta[i][j] is Empty && !(
        tb[i][j] is Empty))) by {
            assert(ta[i][j] == a[j][i]);
            assert(tb[i][j] == b[j][i]);
            assert(line_refines(a[j], b[j]));
            assert(b[j][i] == a[j][i] || (a[j][i] is Empty && !(b[j][i] is Empty)));
        }
    }
}

/// Filling only empty cells cannot raise the number of empties, and filling
/// at least one strictly lowers it.
pub proof fn lemma_cnt_empty_refines(a: Seq<CellState>, b: Seq<CellState>)
    requires
        line_refines(a, b),
    ensures
        cnt_empty(b) <= cnt_empty(a),
        a != b ==> cnt_empty(b) < cnt_empty(a),
    decreases a.len(),
{
    if a.len() == 0 {
        assert(a =~= b);
    } else {
        let a0 = a.drop_last();
        let b0 = b.drop_last();
        assert(line_refines(a0, b0)) by {
            assert(forall|j: int| 0 <= j < a0.len() ==> #[trigger] b0[j] == b[j] && a0[j] == a[j]);
        }
        lemma_cnt_empty_refines(a0, b0);
        if a != b {
            if a.last() == b.last() {
                assert(a0 != b0) by {
                    if a0 =~= b0 {
                        assert forall|j: int| 0 <= j < a.len() implies a[j] == #[trigger] b[j] by {
                            if j < a.len() - 1 {
                                assert(a0[j] == a[j]);
                                assert(b0[j] == b[j]);
                            }
                        }
                        assert(a =~= b);
                    }
                }
            }
        }
    }
}

pub proof fn lemma_grid_empties_refines(a: Seq<Seq<CellState>>, b: Seq<Seq<CellState>>)
    requires
        grid_refines(a, b),
    ensures
        grid_empties(b) <= grid_empties(a),
        a != b ==> grid_empties(b) < grid_empties(a),
    decreases a.len(),
{
    if a.len() == 0 {
        assert(a =~= b);
    } else {
        let a0 = a.drop_last();
        let b0 = b.drop_last();
        assert(grid_refines(a0, b0)) by {
            assert(forall|i: int| 0 <= i < a0.len() ==> #[trigger] b0[i] == b[i] && a0[i] == a[i]);
        }
        lemma_grid_empties_refines(a0, b0);
        lemma_cnt_empty_refines(a.last(), b.last());
        if a != b {
            if a.last() == b.last() {
                assert(a0 != b0) by {
                    if a0 =~= b0 {
                        assert forall|i: int| 0 <= i < a.len() implies a[i] == #[trigger] b[i] by {
                            if i < a.len() - 1 {
                                assert(a0[i] == a[i]);
                                assert(b0[i] == b[i]);
                            }
                        }
                        assert(a =~= b);
                    }
                }
            }
        }
    }
}

/// Replacing one cell changes the empty count by the difference of the two
/// cells' contributions.
pub proof fn lemma_cnt_empty_update(line: Seq<CellState>, j: int, v: CellState)
    requires
        0 <= j < line.len(),
    ensures
        cnt_empty(line.update(j, v)) == cnt_empty(line) - (if line[j] is Empty {
            1int
        } else {
            0int
        }) + (if v is Empty {
            1int
        } else {
            0int
        }),
    decreases line.len(),
{
    let u = line.update(j, v);
    if j == line.len() - 1 {
        assert(u.drop_last() =~= line.drop_last());
    } else {
        assert(u.drop_last() =~= line.drop_last().update(j, v));
        lemma_cnt_empty_update(line.drop_last(), j, v);
    }
}

pub proof fn lemma_grid_empties_row_update(g: Seq<Seq<CellState>>, y: int, row: Seq<CellState>)
    requires
        0 <= y < g.len(),
    ensures
        grid_empties(g.update(y, row)) == grid_empties(g) - cnt_empty(g[y]) + cnt_empty(row),
    decreases g.len(),
{
    let u = g.update(y, row);
    if y == g.len() - 1 {
        assert(u.drop_last() =~= g.drop_last());
    } else {
        assert(u.drop_last() =~= g.drop_last().update(y, row));
        lemma_grid_empties_row_update(g.drop_last(), y, row);
    }
}

pub proof fn lemma_grid_empties_update2(g: Seq<Seq<CellState>>, y: int, x: int, v: CellState)
    requires
        0 <= y < g.len(),
        0 <= x < g[y].len(),
    ensures
        grid_empties(update2(g, y, x, v)) == grid_empties(g) - (if g[y][x] is Empty {
            1int
        } else {
            0int
        }) + (if v is Empty {
            1int
        } else {
            0int
        }),
{
    lemma_grid_empties_row_update(g, y, g[y].update(x, v));
    lemma_cnt_empty_update(g[y], x, v);
}

/// A square grid holds at most size-squared empty cells.
pub proof fn lemma_grid_empties_le(g: Seq<Seq<CellState>>, n: nat)
    requires
        forall|i: int| 0 <= i < g.len() ==> (#[trigger] g[i]).len() == n,
    ensures
        grid_empties(g) <= g.len() * n,
    decreases g.len(),
{
    if g.len() > 0 {
        let g0 = g.drop_last();
        assert(forall|i: int| 0 <= i < g0.len() ==> #[trigger] g0[i] == g[i]);
        lemma_grid_empties_le(g0, n);
        lemma_cnt_empty_bound(g.last());
        assert(g0.len() * n + n == g.len() * n) by (nonlinear_arith)
            requires
                g0.len() + 1 == g.len(),
        ;
    }
}

/// Clearing a cell only weakens the grid: the old grid refines the new one.
pub proof fn lemma_clear_one(g: Seq<Seq<CellState>>, n: nat, y: int, x: int)
    requires
        is_grid(g, n),
        0 <= y < n,
        0 <= x < n,
    ensures
        is_grid(update2(g, y, x, CellState::Empty), n),
        grid_refines(update2(g, y, x, CellState::Empty), g),
        !(g[y][x] is Empty) ==> update2(g, y, x, CellState::Empty) != g,
{
    let r = update2(g, y, x, CellState::Empty);
    assert forall|p: int| 0 <= p < n implies line_refines(#[trigger] r[p], #[trigger] g[p]) by {}
    if !(g[y][x] is Empty) && r == g {
        assert(r[y][x] == g[y][x]);
    }
}

pub proof fn lemma_grid_refines_refl(g: Seq<Seq<CellState>>)
    ensures
        grid_refines(g, g),
{
}

/// A refinement chain that moves somewhere cannot end where it started:
/// every move fills an empty cell for good.
pub proof fn lemma_refines_chain_ne(
    a: Seq<Seq<CellState>>,
    b: Seq<Seq<CellState>>,
    c: Seq<Seq<CellState>>,
)
    requires
        grid_refines(a, b),
        grid_refines(b, c),
        b != a || c != b,
    ensures
        grid_refines(a, c),
        c != a,
{
    lemma_grid_refines_trans(a, b, c);
    lemma_grid_empties_refines(a, b);
    lemma_grid_empties_refines(b, c);
}

/// Writing a determined value into an empty cell refines the grid and
/// genuinely changes it.
pub proof fn lemma_fill_one(g: Seq<Seq<CellState>>, n: nat, i: int, j: int, v: CellState)
    requires
        is_grid(g, n),
        0 <= i < n,
        0 <= j < n,
        g[i][j] is Empty,
        !(v is Empty),
    ensures
        is_grid(update2(g, i, j, v), n),
        grid_refines(g, update2(g, i, j, v)),
        update2(g, i, j, v) != g,
{
    let r = update2(g, i, j, v);
    assert(r[i][j] == v);
    assert forall|p: int| 0 <= p < n implies line_refines(#[trigger] g[p], #[trigger] r[p]) by {}
    if r == g {
        assert(r[i][j] == g[i][j]);
    }
}

pub proof fn lemma_cnt_zero_pos(line: Seq<CellState>)
    requires
        cnt_zero(line) != 0,
    ensures
        exists|j: int| 0 <= j < line.len() && (#[trigger] line[j]) is Zero,
    decreases line.len(),
{
    if line.len() > 0 {
        if line.last() is Zero {
            assert(line[line.len() - 1] is Zero);
        } else {
            let l0 = line.drop_last();
            lemma_cnt_zero_pos(l0);
            let j = choose|j: int| 0 <= j < l0.len() && (#[trigger] l0[j]) is Zero;
            assert(line[j] is Zero);
        }
    }
}

pub proof fn lemma_cnt_one_pos(line: Seq<CellState>)
    requires
        cnt_one(line) != 0,
    ensures
        exists|j: int| 0 <= j < line.len() && (#[trigger] line[j]) is One,
    decreases line.len(),
{
    if line.len() > 0 {
        if line.last() is One {
            assert(line[line.len() - 1] is One);
        } else {
            let l0 = line.drop_last();
            lemma_cnt_one_pos(l0);
            let j = choose|j: int| 0 <= j < l0.len() && (#[trigger] l0[j]) is One;
            assert(line[j] is One);
        }
    }
}

/// At least one cell of the grid is determined.
pub open spec fn grid_nonempty(g: Seq<Seq<CellState>>, n: nat) -> bool {
    exists|i: int, j: int| 0 <= i < n && 0 <= j < n && !((#[trigger] g[i][j]) is Empty)
}

/// A line of empty cells counts no digit.
pub proof fn lemma_all_empty_counts(line: Seq<CellState>)
    requires
        forall|j: int| 0 <= j < line.len() ==> (#[trigger] line[j]) is Empty,
    ensures
        cnt_zero(line) == 0,
        cnt_one(line) == 0,
    decreases line.len(),
{
    if line.len() > 0 {
        let l0 = line.drop_last();
        assert(forall|j: int| 0 <= j < l0.len() ==> #[trigger] l0[j] == line[j]);
        lemma_all_empty_counts(l0);
        assert(line[line.len() - 1] is Empty);
    }
}

/// A line with a positive empty count holds an empty cell.
pub proof fn lemma_cnt_empty_pos(line: Seq<CellState>)
    requires
        cnt_empty(line) != 0,
    ensures
        exists|j: int| 0 <= j < line.len() && (#[trigger] line[j]) is Empty,
{
    lemma_cnt_empty_complete_iff(line);
    assert(!line_complete(line));
}

// ---------------------------------------------------------------------------
// Validity of a grid: the three violation kinds of the rules of the game,
// per line; a grid is consistent when neither its rows nor its columns hold
// any of them.
// ---------------------------------------------------------------------------

/// Three consecutive equal determined values starting at offset `i`.
pub open spec fn triple_at(line: Seq<CellState>, i: int) -> bool {
    &&& 0 <= i
    &&& i + 2 < line.len()
    &&& line[i].same_val(line[i + 1])
    &&& line[i + 1].same_val(line[i + 2])
    &&& !(line[i] is Empty)
}

pub open spec fn has_triple(line: Seq<CellState>) -> bool {
    exists|i: int| triple_at(line, i)
}

/// More of one digit than could ever be legal: a count above half the size.
pub open spec fn unbalanced(line: Seq<CellState>, n: nat) -> bool {
    cnt_zero(line) > n / 2 || cnt_one(line) > n / 2
}

pub open spec fn line_complete(line: Seq<CellState>) -> bool {
    forall|j: int| 0 <= j < line.len() ==> !((#[trigger] line[j]) is Empty)
}

pub open spec fn lines_same(a: Seq<CellState>, b: Seq<CellState>) -> bool {
    a.len() == b.len() && forall|j: int| 0 <= j < a.len() ==> (#[trigger] a[j]).same_val(b[j])
}

/// Lines `i` and `j` are both fully determined and carry the same values.
pub open spec fn dup_pair(g: Seq<Seq<CellState>>, i: int, j: int) -> bool {
    &&& 0 <= i < j < g.len()
    &&& line_complete(g[i])
    &&& line_complete(g[j])
    &&& lines_same(g[i], g[j])
}

/// No violation along one axis of the grid (the lines of `g`).
pub open spec fn axis_ok(g: Seq<Seq<CellState>>, n: nat) -> bool {
    &&& forall|i: int| 0 <= i < n ==> !has_triple(#[trigger] g[i])
    &&& forall|i: int| 0 <= i < n ==> !unbalanced(#[trigger] g[i], n)
    &&& forall|i: int, j: int| !dup_pair(g, i, j)
}

/// Rule-consistency of the whole grid: rows and columns both pass.
pub open spec fn grid_ok(g: Seq<Seq<CellState>>, n: nat) -> bool {
    axis_ok(g, n) && axis_ok(transpose(g, n), n)
}

pub open spec fn grid_complete(g: Seq<Seq<CellState>>, n: nat) -> bool {
    forall|i: int| 0 <= i < n ==> line_complete(#[trigger] g[i])
}

/// A complete line of a balanced grid has exactly half of each digit.
pub proof fn lemma_complete_balanced(line: Seq<CellState>, n: nat)
    requires
        line.len() == n,
        n % 2 == 0,
        line_complete(line),
        !unbalanced(line, n),
    ensures
        cnt_zero(line) == n / 2,
        cnt_one(line) == n / 2,
{
    lemma_counts_total(line);
    assert(cnt_empty(line) == 0) by {
        lemma_cnt_empty_complete(line);
    }
}

/// A fully determined line has no empty cell to count.
pub proof fn lemma_cnt_empty_complete(line: Seq<CellState>)
    requires
        line_complete(line),
    ensures
        cnt_empty(line) == 0,
    decreases line.len(),
{
    if line.len() > 0 {
        let l0 = line.drop_last();
        assert(line_complete(l0)) by {
            assert(forall|j: int| 0 <= j < l0.len() ==> l0[j] == #[trigger] line[j]);
        }
        lemma_cnt_empty_complete(l0);
    }
}

/// And the converse: a line without empty cells is fully determined.
pub proof fn lemma_cnt_empty_zero_complete(line: Seq<CellState>)
    requires
        cnt_empty(line) == 0,
    ensures
        line_complete(line),
    decreases line.len(),
{
    if line.len() > 0 {
        let l0 = line.drop_last();
        lemma_cnt_empty_zero_complete(l0);
        assert forall|j: int| 0 <= j < line.len() implies !((#[trigger] line[j]) is Empty) by {
            if j < l0.len() {
                assert(l0[j] == line[j]);
            }
        }
    }
}


// ---------------------------------------------------------------------------
// Value equivalence: two grids that agree cell for cell up to the locked
// flag. Every count, every rule and every validity predicate is blind to
// the flag, so each respects this relation.
// ---------------------------------------------------------------------------

pub open spec fn line_val_eq(a: Seq<CellState>, b: Seq<CellState>) -> bool {
    a.len() == b.len() && forall|j: int| 0 <= j < a.len() ==> (#[trigger] a[j]).same_val(b[j])
}

pub open spec fn grid_val_eq(a: Seq<Seq<CellState>>, b: Seq<Seq<CellState>>) -> bool {
    a.len() == b.len() && forall|i: int|
        0 <= i < a.len() ==> line_val_eq(#[trigger] a[i], #[trigger] b[i])
}

pub proof fn lemma_cnt_val_eq(a: Seq<CellState>, b: Seq<CellState>)
    requires
        line_val_eq(a, b),
    ensures
        cnt_empty(a) == cnt_empty(b),
        cnt_zero(a) == cnt_zero(b),
        cnt_one(a) == cnt_one(b),
    decreases a.len(),
{
    if a.len() > 0 {
        let a0 = a.drop_last();
        let b0 = b.drop_last();
        assert(line_val_eq(a0, b0)) by {
            assert forall|j: int| 0 <= j < a0.len() implies (#[trigger] a0[j]).same_val(b0[j]) by {
                assert(a0[j] == a[j]);
                assert(b0[j] == b[j]);
            }
        }
        lemma_cnt_val_eq(a0, b0);
        assert(a[a.len() - 1].same_val(b[a.len() - 1]));
    }
}

pub proof fn lemma_transpose_val_eq(a: Seq<Seq<CellState>>, b: Seq<Seq<CellState>>, n: nat)
    requires
        is_grid(a, n),
        is_grid(b, n),
        grid_val_eq(a, b),
    ensures
        grid_val_eq(transpose(a, n), transpose(b, n)),
{
    let ta = transpose(a, n);
    let tb = transpose(b, n);
    assert forall|i: int| 0 <= i < n implies line_val_eq(#[trigger] ta[i], #[trigger] tb[i]) by {
        assert forall|j: int| 0 <= j < n implies (#[trigger] ta[i][j]).same_val(tb[i][j]) by {
            assert(ta[i][j] == a[j][i]);
            assert(tb[i][j] == b[j][i]);
            assert(line_val_eq(a[j], b[j]));
            assert(a[j][i].same_val(b[j][i]));
        }
    }
}

/// A grid that refines a value-equivalent grid is that grid: a genuine move
/// fills an empty cell, which value equivalence rules out.
pub proof fn lemma_refines_val_eq(a: Seq<Seq<CellState>>, b: Seq<Seq<CellState>>, n: nat)
    requires
        is_grid(a, n),
        is_grid(b, n),
        grid_refines(a, b),
        grid_val_eq(a, b),
    ensures
        a == b,
{
    assert forall|i: int, j: int| 0 <= i < n && 0 <= j < n implies a[i][j] == #[trigger] b[i][j] by {
        assert(line_refines(a[i], b[i]));
        assert(line_val_eq(a[i], b[i]));
        assert(a[i][j].same_val(b[i][j]));
        assert(b[i][j] == a[i][j] || (a[i][j] is Empty && !(b[i][j] is Empty)));
    }
    lemma_grid_ext(a, b, n);
}

/// The validity predicates ignore the locked flag.
pub proof fn lemma_axis_ok_val_eq(a: Seq<Seq<CellState>>, b: Seq<Seq<CellState>>, n: nat)
    requires
        a.len() == n,
        b.len() == n,
        grid_val_eq(a, b),
    ensures
        axis_ok(a, n) == axis_ok(b, n),
{
    lemma_axis_ok_val_eq_one(a, b, n);
    lemma_axis_ok_val_eq_one(b, a, n);
}

proof fn lemma_val_eq_sym_line(a: Seq<CellState>, b: Seq<CellState>)
    requires
        line_val_eq(a, b),
    ensures
        line_val_eq(b, a),
{
    assert forall|j: int| 0 <= j < b.len() implies (#[trigger] b[j]).same_val(a[j]) by {
        assert(a[j].same_val(b[j]));
    }
}

proof fn lemma_axis_ok_val_eq_one(a: Seq<Seq<CellState>>, b: Seq<Seq<CellState>>, n: nat)
    requires
        a.len() == n,
        b.len() == n,
        grid_val_eq(a, b),
    ensures
        axis_ok(a, n) ==> axis_ok(b, n),
{
    if axis_ok(a, n) {
        assert forall|i: int| 0 <= i < n implies !has_triple(#[trigger] b[i]) by {
            if has_triple(b[i]) {
                let k = choose|k: int| triple_at(b[i], k);
                assert(line_val_eq(a[i], b[i]));
                assert(a[i][k].same_val(b[i][k]));
                assert(a[i][k + 1].same_val(b[i][k + 1]));
                assert(a[i][k + 2].same_val(b[i][k + 2]));
                assert(triple_at(a[i], k));
            }
        }
        assert forall|i: int| 0 <= i < n implies !unbalanced(#[trigger] b[i], n) by {
            assert(line_val_eq(a[i], b[i]));
            lemma_cnt_val_eq(a[i], b[i]);
        }
        assert forall|i: int, j: int| !dup_pair(b, i, j) by {
            if dup_pair(b, i, j) {
                assert(line_val_eq(a[i], b[i]));
                assert(line_val_eq(a[j], b[j]));
                assert(line_complete(a[i])) by {
                    assert forall|k: int| 0 <= k < a[i].len() implies !((#[trigger] a[i][k]) is Empty) by {
                        assert(a[i][k].same_val(b[i][k]));
                        assert(!(b[i][k] is Empty));
                    }
                }
                assert(line_complete(a[j])) by {
                    assert forall|k: int| 0 <= k < a[j].len() implies !((#[trigger] a[j][k]) is Empty) by {
                        assert(a[j][k].same_val(b[j][k]));
                        assert(!(b[j][k] is Empty));
                    }
                }
                assert(lines_same(a[i], a[j])) by {
                    assert forall|k: int| 0 <= k < a[i].len() implies (#[trigger] a[i][k]).same_val(
                        a[j][k],
                    ) by {
                        assert(a[i][k].same_val(b[i][k]));
                        assert(a[j][k].same_val(b[j][k]));
                        assert(b[i][k].same_val(b[j][k]));
                    }
                }
                assert(dup_pair(a, i, j));
            }
        }
    }
}

pub proof fn lemma_grid_ok_val_eq(a: Seq<Seq<CellState>>, b: Seq<Seq<CellState>>, n: nat)
    requires
        is_grid(a, n),
        is_grid(b, n),
        grid_val_eq(a, b),
    ensures
        grid_ok(a, n) == grid_ok(b, n),
{
    lemma_axis_ok_val_eq(a, b, n);
    lemma_transpose_val_eq(a, b, n);
    lemma_axis_ok_val_eq(transpose(a, n), transpose(b, n), n);
}

pub proof fn lemma_grid_complete_val_eq(a: Seq<Seq<CellState>>, b: Seq<Seq<CellState>>, n: nat)
    requires
        a.len() == n,
        b.len() == n,
        grid_val_eq(a, b),
    ensures
        grid_complete(a, n) == grid_complete(b, n),
{
    if grid_complete(a, n) {
        assert forall|i: int| 0 <= i < n implies line_complete(#[trigger] b[i]) by {
            assert(line_val_eq(a[i], b[i]));
            assert(line_complete(a[i]));
            assert forall|k: int| 0 <= k < b[i].len() implies !((#[trigger] b[i][k]) is Empty) by {
                assert(a[i][k].same_val(b[i][k]));
            }
        }
    }
    if grid_complete(b, n) {
        assert forall|i: int| 0 <= i < n implies line_complete(#[trigger] a[i]) by {
            assert(line_val_eq(a[i], b[i]));
            assert(line_complete(b[i]));
            assert forall|k: int| 0 <= k < a[i].len() implies !((#[trigger] a[i][k]) is Empty) by {
                assert(a[i][k].same_val(b[i][k]));
            }
        }
    }
}

} // verus!
