use vstd::prelude::*;

use crate::board::Board;
use crate::cell::CellState;
use crate::model::{
    grid_complete, grid_nonempty, grid_ok, grid_refines, grid_val_eq, is_grid, lemma_clear_one,
    line_val_eq, update2,
};
use crate::rules_model::{lemma_complete_ok_solvable, lemma_solvable_val_eq, spec_solvable};

verus! {

/// The three ways the application asks for a puzzle: a raw filled grid to
/// play with, a softened and minimized puzzle with help, or a minimized
/// puzzle without help.
#[derive(Copy, Clone, Debug)]
pub enum GameMode {
    Sandbox,
    Learn,
    Serious,
}

impl GameMode {
    pub fn as_str(&self) -> (r: &'static str)
        ensures
            *self is Sandbox ==> r@ == "Sandbox"@,
            *self is Learn ==> r@ == "Learn"@,
            *self is Serious ==> r@ == "Serious"@,
    {
        match self {
            GameMode::Sandbox => "Sandbox",
            GameMode::Learn => "Learn",
            GameMode::Serious => "Serious",
        }
    }

    /// The lines of the description shown beside the mode's name.
    pub fn info(&self) -> (r: Vec<&'static str>)
        ensures
            r@.len() == (if *self is Serious {
                5int
            } else {
                3int
            }),
    {
        let mut v: Vec<&'static str> = Vec::new();
        match self {
            GameMode::Sandbox => {
                v.push("Here you can play");
                v.push("around with different");
                v.push("algorithms.");
            },
            GameMode::Learn => {
                v.push("Here you can play");
                v.push("Takuzu with hints");
                v.push("and error highlighting");
            },
            GameMode::Serious => {
                v.push("Here you can play");
                v.push("Takuzu without any");
                v.push("hints or highlighting.");
                v.push("Your best times will be");
                v.push("saved as highscores.");
            },
        }
        v
    }
}

/// `g` extends to `full`: every determined cell of `g` carries the value
/// `full` has there, locked or not.
pub open spec fn extends_to(g: Seq<Seq<CellState>>, full: Seq<Seq<CellState>>, n: nat) -> bool {
    forall|i: int, j: int|
        0 <= i < n && 0 <= j < n ==> ((#[trigger] g[i][j]) is Empty || g[i][j].same_val(
            full[i][j],
        ))
}

/// A grid obtained by clearing cells of one that extends to `full` still
/// extends to `full`.
proof fn lemma_extends_through_clears(
    weaker: Seq<Seq<CellState>>,
    g: Seq<Seq<CellState>>,
    full: Seq<Seq<CellState>>,
    n: nat,
)
    requires
        is_grid(g, n),
        grid_refines(weaker, g),
        extends_to(g, full, n),
        weaker.len() == n,
    ensures
        extends_to(weaker, full, n),
{
    assert forall|i: int, j: int|
        0 <= i < n && 0 <= j < n implies ((#[trigger] weaker[i][j]) is Empty
        || weaker[i][j].same_val(full[i][j])) by {
        assert(crate::model::line_refines(weaker[i], g[i]));
        assert(g[i][j] == weaker[i][j] || (weaker[i][j] is Empty && !(g[i][j] is Empty)));
    }
}

/// What both puzzle constructors guarantee of the board they build: a
/// well-formed grid of the requested size whose determined cells are all
/// locked givens, at least one given, a locally irreducible given-set (no
/// single given can be cleared without losing solvability), and givens that
/// extend to one complete assignment of the whole grid.
pub open spec fn puzzle_shape(b: Board, size: usize) -> bool {
    &&& b.wf()
    &&& b.size == size
    &&& forall|i: int, j: int|
        0 <= i < size && 0 <= j < size && !((#[trigger] b.grid()[i][j]) is Empty)
            ==> b.grid()[i][j].spec_is_locked()
    &&& grid_nonempty(b.grid(), size as nat)
    &&& forall|yy: int, xx: int|
        0 <= yy < size && 0 <= xx < size && !((#[trigger] b.grid()[yy][xx]) is Empty)
            ==> !spec_solvable(update2(b.grid(), yy, xx, CellState::Empty), size as nat)
    &&& exists|full: Seq<Seq<CellState>>|
        #[trigger] grid_complete(full, size as nat) && is_grid(full, size as nat) && extends_to(
            b.grid(),
            full,
            size as nat,
        )
}

/// Locking the givens changes only flags: nonemptiness, the locked marks,
/// local irreducibility and value equivalence all carry over to the locked
/// grid.
proof fn lemma_lock_carries_shape(g2: Seq<Seq<CellState>>, locked: Seq<Seq<CellState>>, n: nat)
    requires
        is_grid(g2, n),
        is_grid(locked, n),
        n >= 2,
        forall|i: int, j: int|
            0 <= i < n && 0 <= j < n ==> #[trigger] locked[i][j] == g2[i][j].spec_lock(),
        grid_nonempty(g2, n),
        forall|yy: int, xx: int|
            0 <= yy < n && 0 <= xx < n && !((#[trigger] g2[yy][xx]) is Empty) ==> !spec_solvable(
                update2(g2, yy, xx, CellState::Empty),
                n,
            ),
    ensures
        grid_val_eq(g2, locked),
        grid_nonempty(locked, n),
        forall|i: int, j: int|
            0 <= i < n && 0 <= j < n && !((#[trigger] locked[i][j]) is Empty)
                ==> locked[i][j].spec_is_locked(),
        forall|yy: int, xx: int|
            0 <= yy < n && 0 <= xx < n && !((#[trigger] locked[yy][xx]) is Empty)
                ==> !spec_solvable(update2(locked, yy, xx, CellState::Empty), n),
{
    assert(grid_val_eq(g2, locked)) by {
        assert forall|i: int| 0 <= i < n implies line_val_eq(#[trigger] g2[i], #[trigger] locked[i]) by {
            assert forall|j: int| 0 <= j < g2[i].len() implies (#[trigger] g2[i][j]).same_val(
                locked[i][j],
            ) by {
                assert(locked[i][j] == g2[i][j].spec_lock());
            }
        }
    }
    let (wi, wj) = choose|i: int, j: int| 0 <= i < n && 0 <= j < n && !((#[trigger] g2[i][j]) is Empty);
    assert(!(locked[wi][wj] is Empty));
    assert(grid_nonempty(locked, n));
    assert forall|yy: int, xx: int|
        0 <= yy < n && 0 <= xx < n && !((#[trigger] locked[yy][xx]) is Empty) implies !spec_solvable(
        update2(locked, yy, xx, CellState::Empty),
        n,
    ) by {
        assert(locked[yy][xx] == g2[yy][xx].spec_lock());
        assert(!(g2[yy][xx] is Empty));
        let a = update2(g2, yy, xx, CellState::Empty);
        let b = update2(locked, yy, xx, CellState::Empty);
        lemma_clear_one(g2, n, yy, xx);
        lemma_clear_one(locked, n, yy, xx);
        assert(grid_val_eq(a, b)) by {
            assert forall|i: int| 0 <= i < n implies line_val_eq(#[trigger] a[i], #[trigger] b[i]) by {
                assert forall|j: int| 0 <= j < a[i].len() implies (#[trigger] a[i][j]).same_val(
                    b[i][j],
                ) by {
                    if i == yy && j == xx {
                        assert(a[i][j] is Empty && b[i][j] is Empty);
                    } else {
                        assert(a[i][j] == g2[i][j]);
                        assert(b[i][j] == locked[i][j]);
                        assert(locked[i][j] == g2[i][j].spec_lock());
                    }
                }
            }
        }
        lemma_solvable_val_eq(a, b, n);
        assert(!spec_solvable(a, n));
    }
}

impl Board {
    /// A puzzle for the Learn mode, with the number of grids the generator
    /// had to draw: a complete consistent grid is generated, softened by the
    /// inverse rules, minimized, and its remaining cells locked as givens.
    /// The puzzle keeps at least one given, no single given can be cleared
    /// without losing solvability, and every given comes from one complete
    /// assignment — a rule-consistent one whenever the attempt count stayed
    /// below the width of its counter, which retries until consistency.
    pub fn new_learn(size: usize, id: usize, rng: &mut rand::rngs::StdRng) -> (r: (Board, u32))
        requires
            2 <= size,
            size % 2 == 0,
            size <= 0xFFFF,
        ensures
            puzzle_shape(r.0, size),
            r.0.id == id,
            1 <= r.1,
            exists|full: Seq<Seq<CellState>>|
                #[trigger] grid_complete(full, size as nat) && is_grid(full, size as nat)
                    && extends_to(r.0.grid(), full, size as nat) && (r.1 < u32::MAX ==> grid_ok(
                    full,
                    size as nat,
                )),
    {
        let ghost n = size as nat;
        let mut board = Board::new(size, id, true);
        let attempts = board.generate_valid(rng);
        let ghost full = board.grid();
        proof {
            assert(attempts < u32::MAX ==> grid_ok(full, n));
            assert(grid_nonempty(full, n)) by {
                assert(crate::model::line_complete(full[0]));
                assert(!(full[0][0] is Empty));
            }
        }
        board.degenerate(rng);
        let ghost g1 = board.grid();
        proof {
            lemma_extends_through_clears(g1, full, full, n);
        }
        board.purge_redundancies(rng);
        let ghost g2 = board.grid();
        proof {
            lemma_extends_through_clears(g2, g1, full, n);
        }
        board.lock_tiles();
        proof {
            lemma_lock_carries_shape(g2, board.grid(), n);
            assert(extends_to(board.grid(), full, n)) by {
                assert forall|i: int, j: int|
                    0 <= i < size && 0 <= j < size implies ((#[trigger] board.grid()[i][j]) is Empty
                    || board.grid()[i][j].same_val(full[i][j])) by {
                    assert(board.grid()[i][j] == g2[i][j].spec_lock());
                }
            }
            assert(grid_complete(full, n) && is_grid(full, n) && extends_to(board.grid(), full, n)
                && (attempts < u32::MAX ==> grid_ok(full, n)));
        }
        (board, attempts)
    }

    /// A puzzle for the Serious mode, with the generator's attempt count:
    /// like Learn, but without the softening pass, so only the exhaustive
    /// minimizer shapes the given-set. Below the counter's width the
    /// generated grid is consistent and the puzzle is then solvable by the
    /// rules alone.
    pub fn new_serious(size: usize, id: usize, rng: &mut rand::rngs::StdRng) -> (r: (Board, u32))
        requires
            2 <= size,
            size % 2 == 0,
            size <= 0xFFFF,
        ensures
            puzzle_shape(r.0, size),
            r.0.id == id,
            1 <= r.1,
            r.1 < u32::MAX ==> spec_solvable(r.0.grid(), size as nat),
            exists|full: Seq<Seq<CellState>>|
                #[trigger] grid_complete(full, size as nat) && is_grid(full, size as nat)
                    && extends_to(r.0.grid(), full, size as nat) && (r.1 < u32::MAX ==> grid_ok(
                    full,
                    size as nat,
                )) && (grid_ok(full, size as nat) ==> spec_solvable(r.0.grid(), size as nat)),
    {
        let ghost n = size as nat;
        let mut board = Board::new(size, id, true);
        let attempts = board.generate_valid(rng);
        let ghost full = board.grid();
        proof {
            assert(attempts < u32::MAX ==> grid_ok(full, n));
            assert(grid_nonempty(full, n)) by {
                assert(crate::model::line_complete(full[0]));
                assert(!(full[0][0] is Empty));
            }
        }
        board.purge_redundancies(rng);
        let ghost g2 = board.grid();
        proof {
            lemma_extends_through_clears(g2, full, full, n);
        }
        board.lock_tiles();
        proof {
            lemma_lock_carries_shape(g2, board.grid(), n);
            assert(extends_to(board.grid(), full, n)) by {
                assert forall|i: int, j: int|
                    0 <= i < size && 0 <= j < size implies ((#[trigger] board.grid()[i][j]) is Empty
                    || board.grid()[i][j].same_val(full[i][j])) by {
                    assert(board.grid()[i][j] == g2[i][j].spec_lock());
                }
            }
            if grid_ok(full, n) {
                lemma_complete_ok_solvable(full, n);
                assert(spec_solvable(g2, n));
                lemma_solvable_val_eq(g2, board.grid(), n);
            }
            assert(grid_complete(full, n) && is_grid(full, n) && extends_to(board.grid(), full, n)
                && (attempts < u32::MAX ==> grid_ok(full, n)) && (grid_ok(full, n)
                ==> spec_solvable(board.grid(), n)));
        }
        (board, attempts)
    }

    /// Builds the board the generation worker hands back for one request.
    /// Sandbox delivers an empty grid with no generation pending; the other
    /// modes deliver the full pipeline's puzzle: locked givens only, at
    /// least one, locally irreducible, extending to a complete assignment —
    /// for Serious one that is solvable whenever that assignment is
    /// rule-consistent.
    pub fn build_for_mode(size: usize, mode: &GameMode, rng: &mut rand::rngs::StdRng) -> (r: Board)
        requires
            2 <= size,
            size % 2 == 0,
            size <= 0xFFFF,
        ensures
            r.wf(),
            r.size == size,
            *mode is Sandbox ==> !r.is_generating && (forall|i: int, j: int|
                0 <= i < size && 0 <= j < size ==> (#[trigger] r.grid()[i][j]) is Empty),
            !(*mode is Sandbox) ==> puzzle_shape(r, size),
            *mode is Serious ==> exists|full: Seq<Seq<CellState>>|
                #[trigger] grid_complete(full, size as nat) && is_grid(full, size as nat)
                    && extends_to(r.grid(), full, size as nat) && (grid_ok(full, size as nat)
                    ==> spec_solvable(r.grid(), size as nat)),
    {
        match mode {
            GameMode::Sandbox => Board::new(size, 0, false),
            GameMode::Learn => Board::new_learn(size, 0, rng).0,
            GameMode::Serious => Board::new_serious(size, 0, rng).0,
        }
    }

    /// The adoption decision for a grid coming back from the generation
    /// worker: it is taken exactly when the request id and the size still
    /// match this board and a generation is pending — a stale result is
    /// discarded, which is the only cancellation mechanism.
    pub fn capture_generated_map(&mut self, map: Vec<Vec<CellState>>, map_size: usize, id: usize) -> (adopted:
        bool)
        requires
            old(self).wf(),
        ensures
            final(self).wf(),
            adopted == (old(self).id == id && old(self).size == map_size
                && old(self).is_generating && is_grid(
                map@.map_values(|row: Vec<CellState>| row@),
                map_size as nat,
            )),
            adopted ==> final(self).grid() == map@.map_values(|row: Vec<CellState>| row@)
                && !final(self).is_generating,
            !adopted ==> *final(self) == *old(self),
            final(self).id == old(self).id && final(self).size == old(self).size
                && final(self).error == old(self).error && final(self).hint == old(self).hint,
    {
        if self.id != id || self.size != map_size || !self.is_generating {
            return false;
        }
        let mut square = map.len() == map_size;
        let mut y: usize = 0;
        while y < map.len()
            invariant
                y <= map@.len(),
                square == (map@.len() == map_size && forall|i: int|
                    0 <= i < y ==> (#[trigger] map@[i])@.len() == map_size),
            decreases map@.len() - y,
        {
            if map[y].len() != map_size {
                square = false;
            }
            y = y + 1;
        }
        if !square {
            proof {
                if is_grid(map@.map_values(|row: Vec<CellState>| row@), map_size as nat) {
                    assert(map@.len() == map_size);
                    assert forall|i: int|
                        0 <= i < map@.len() implies (#[trigger] map@[i])@.len() == map_size by {
                        assert(map@.map_values(|row: Vec<CellState>| row@)[i] == map@[i]@);
                    }
                }
            }
            return false;
        }
        let ghost mv = map@.map_values(|row: Vec<CellState>| row@);
        proof {
            assert forall|i: int| 0 <= i < map@.len() implies (#[trigger] mv[i]).len()
                == map_size by {
                assert(mv[i] == map@[i]@);
            }
            assert(is_grid(mv, map_size as nat));
        }
        self.map = map;
        self.is_generating = false;
        true
    }
}

} // verus!
