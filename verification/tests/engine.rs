use takuzu::board::{Axis, Board, Region};
use takuzu::cell::CellState;
use takuzu::rng::rng_from_seed;

/// Builds a board from textual rows: '1' and '0' are unlocked digits, any
/// other character an empty cell.
fn board_from(rows: &[&str]) -> Board {
    let size = rows.len();
    let mut b = Board::new(size, 0, false);
    for (y, row) in rows.iter().enumerate() {
        for (x, ch) in row.chars().enumerate() {
            let c = match ch {
                '1' => CellState::One(false),
                '0' => CellState::Zero(false),
                _ => CellState::Empty,
            };
            b.set_at(Axis::Row, y, x, c);
        }
    }
    b
}

fn cell_at(b: &Board, y: usize, x: usize) -> CellState {
    b.get_at(Axis::Row, y, x)
}

#[test]
fn new_board_is_empty() {
    let b = Board::new(4, 7, false);
    assert_eq!(b.size, 4);
    assert_eq!(b.id, 7);
    assert!(b.is_valid);
    assert!(!b.is_won);
    assert_eq!(b.count_nones(), 16);
    assert!(b.has_nones());
}

#[test]
fn fill_rows_completes_a_half_full_line() {
    let mut b = board_from(&["11__", "____", "____", "____"]);
    let changed = b.fill_rows();
    assert!(changed);
    assert_eq!(cell_at(&b, 0, 2), CellState::Zero(false));
    assert_eq!(cell_at(&b, 0, 3), CellState::Zero(false));
}

#[test]
fn fill_rows_works_on_columns_too() {
    let mut b = board_from(&["1___", "1___", "____", "____"]);
    let changed = b.fill_rows();
    assert!(changed);
    assert_eq!(cell_at(&b, 2, 0), CellState::Zero(false));
    assert_eq!(cell_at(&b, 3, 0), CellState::Zero(false));
}

#[test]
fn fill_rows_reports_no_change_on_a_bare_grid() {
    let mut b = board_from(&["1___", "____", "____", "___0"]);
    let changed = b.fill_rows();
    assert!(!changed);
    assert_eq!(cell_at(&b, 0, 1), CellState::Empty);
}

#[test]
fn surround_doubles_caps_a_pair() {
    let mut b = board_from(&["_11_", "____", "____", "____"]);
    let changed = b.surround_doubles();
    assert!(changed);
    assert_eq!(cell_at(&b, 0, 0), CellState::Zero(false));
    assert_eq!(cell_at(&b, 0, 3), CellState::Zero(false));
}

#[test]
fn separate_triples_fills_the_gap() {
    let mut b = board_from(&["1_1_", "____", "____", "____"]);
    let changed = b.separate_triples();
    assert!(changed);
    assert_eq!(cell_at(&b, 0, 1), CellState::Zero(false));
    assert_eq!(cell_at(&b, 0, 3), CellState::Empty);
}

#[test]
fn rule_engine_fixpoint_is_idempotent() {
    // A second run of the fixpoint right after a first one changes nothing.
    let mut b = board_from(&["11__", "_0__", "1___", "0___"]);
    b.run_rules();
    let settled = b.clone_board();
    b.run_rules();
    assert_eq!(settled.map, b.map);
}

#[test]
fn verify_reports_a_triple_span() {
    // A run of three equal digits: the region covers exactly that span.
    let mut b = board_from(&["_111", "____", "____", "____"]);
    b.verify_board();
    assert!(!b.is_valid);
    assert_eq!(b.error.first, Some(Region { x: 1, y: 0, w: 3, h: 1 }));
    assert_eq!(b.error.second, None);
}

#[test]
fn verify_reports_a_vertical_triple_swapped() {
    let mut b = board_from(&["_1__", "_1__", "_1__", "____"]);
    b.verify_board();
    assert!(!b.is_valid);
    assert_eq!(b.error.first, Some(Region { x: 1, y: 0, w: 1, h: 3 }));
    assert_eq!(b.error.second, None);
}

#[test]
fn verify_reports_two_identical_rows_as_two_regions() {
    let mut b = board_from(&["0101", "0101", "____", "____"]);
    b.verify_board();
    assert!(!b.is_valid);
    assert_eq!(b.error.first, Some(Region { x: 0, y: 0, w: 4, h: 1 }));
    assert_eq!(b.error.second, Some(Region { x: 0, y: 1, w: 4, h: 1 }));
}

#[test]
fn verify_reports_the_overfull_row_before_any_duplicate_check() {
    // Three zeros in the second row are found during the line scan, before
    // the duplicate-line pass would even run.
    let mut b = board_from(&["11__", "_000", "1_1_", "00_1"]);
    b.verify_board();
    assert!(!b.is_valid);
    assert_eq!(b.error.first, Some(Region { x: 1, y: 1, w: 3, h: 1 }));
    assert_eq!(b.error.second, None);
}

#[test]
fn verify_accepts_a_complete_valid_grid() {
    let mut b = board_from(&["0101", "1010", "0110", "1001"]);
    b.verify_board();
    assert!(b.is_valid);
    assert!(b.is_won);
    assert_eq!(b.error.first, None);
    assert_eq!(b.error.second, None);
}

#[test]
fn generate_valid_yields_a_balanced_grid_without_duplicates() {
    for &size in &[2usize, 4, 6] {
        let mut rng = rng_from_seed(11 + size as u64);
        let mut b = Board::new(size, 0, true);
        let attempts = b.generate_valid(&mut rng);
        assert!(attempts >= 1);
        assert!(b.is_valid);
        assert!(b.is_won);
        assert!(!b.has_nones());
        for y in 0..size {
            let zeros = (0..size)
                .filter(|&x| cell_at(&b, y, x) == CellState::Zero(false))
                .count();
            let ones = (0..size)
                .filter(|&x| cell_at(&b, y, x) == CellState::One(false))
                .count();
            assert_eq!(zeros, size / 2);
            assert_eq!(ones, size / 2);
        }
        for x in 0..size {
            let zeros = (0..size)
                .filter(|&y| cell_at(&b, y, x) == CellState::Zero(false))
                .count();
            assert_eq!(zeros, size / 2);
        }
        for a in 0..size {
            for c in a + 1..size {
                let same_row = (0..size).all(|x| cell_at(&b, a, x) == cell_at(&b, c, x));
                let same_col = (0..size).all(|y| cell_at(&b, y, a) == cell_at(&b, y, c));
                assert!(!same_row);
                assert!(!same_col);
            }
        }
    }
}

#[test]
fn generate_fraction_stops_at_the_requested_share() {
    let mut rng = rng_from_seed(5);
    let mut b = Board::new(4, 0, true);
    b.generate_fraction(&mut rng, 50);
    assert!(b.count_nones() * 100 <= 50 * 16);
}

#[test]
fn insert_random_fills_exactly_one_cell() {
    let mut rng = rng_from_seed(3);
    let mut b = Board::new(4, 0, false);
    b.insert_random(&mut rng);
    assert_eq!(b.count_nones(), 15);
}

#[test]
fn fill_nth_empty_fills_in_row_major_order() {
    let mut b = board_from(&["10__", "____", "____", "____"]);
    b.fill_nth_empty(0, true);
    assert_eq!(cell_at(&b, 0, 2), CellState::One(false));
    b.fill_nth_empty(1, false);
    assert_eq!(cell_at(&b, 1, 0), CellState::Zero(false));
}

#[test]
fn reset_clears_everything() {
    let mut rng = rng_from_seed(9);
    let mut b = Board::new(4, 0, true);
    b.generate(&mut rng);
    b.reset();
    assert_eq!(b.count_nones(), 16);
    assert!(b.is_valid);
    assert!(!b.is_won);
}

#[test]
fn lock_tiles_locks_exactly_the_determined_cells() {
    let mut b = board_from(&["10__", "____", "____", "____"]);
    b.lock_tiles();
    assert!(cell_at(&b, 0, 0).is_locked());
    assert!(cell_at(&b, 0, 1).is_locked());
    assert!(!cell_at(&b, 0, 2).is_locked());
    assert!(!cell_at(&b, 1, 0).is_locked());
}

#[test]
fn copy_nones_clears_where_the_other_board_is_empty() {
    let mut b = board_from(&["1010", "0101", "____", "____"]);
    let other = board_from(&["1___", "0101", "____", "____"]);
    b.copy_nones(&other);
    assert_eq!(cell_at(&b, 0, 0), CellState::One(false));
    assert_eq!(cell_at(&b, 0, 1), CellState::Empty);
    assert_eq!(cell_at(&b, 1, 3), CellState::One(false));
}

#[test]
fn copy_nones_ignores_a_board_of_another_size() {
    let mut b = board_from(&["10", "01"]);
    let other = board_from(&["1___", "____", "____", "____"]);
    b.copy_nones(&other);
    assert_eq!(cell_at(&b, 0, 0), CellState::One(false));
    assert_eq!(cell_at(&b, 0, 1), CellState::Zero(false));
}
