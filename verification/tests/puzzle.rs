use takuzu::board::{Axis, Board};
use takuzu::cell::CellState;
use takuzu::mode::GameMode;
use takuzu::rng::{rand_below, rng_from_seed};

fn board_from(rows: &[&str]) -> Board {
    let size = rows.len();
    let mut b = Board::new(size, 0, false);
    for (y, row) in rows.iter().enumerate() {
        for (x, ch) in row.chars().enumerate() {
            let c = match ch {
                '1' => CellState::One(false),
                '0' => CellState::Zero(false),
                _ => CellState::Empty,
            };
            b.set_at(Axis::Row, y, x, c);
        }
    }
    b
}

#[test]
fn rand_below_stays_in_range() {
    let mut rng = rng_from_seed(1);
    for n in 1..50usize {
        for _ in 0..10 {
            assert!(rand_below(&mut rng, n) < n);
        }
    }
}

#[test]
fn empty_board_is_not_solvable() {
    let b = Board::new(4, 0, false);
    assert!(!b.is_solvable());
}

#[test]
fn complete_valid_board_is_solvable() {
    let b = board_from(&["0101", "1010", "0110", "1001"]);
    assert!(b.is_solvable());
}

#[test]
fn nearly_complete_board_is_solvable_by_the_rules() {
    let b = board_from(&["01_1", "1010", "0110", "1001"]);
    assert!(b.is_solvable());
}

#[test]
fn purge_keeps_the_puzzle_solvable() {
    let mut rng = rng_from_seed(21);
    let mut b = board_from(&["0101", "1010", "0110", "1001"]);
    b.purge_redundancies(&mut rng);
    assert!(b.is_solvable());
    // The result is locally irreducible: no further cell can go.
    assert!(!b.delete_one(&mut rng));
}

#[test]
fn delete_one_clears_a_single_redundant_cell() {
    let mut rng = rng_from_seed(2);
    let mut b = board_from(&["0101", "1010", "0110", "1001"]);
    let before = b.count_nones();
    assert!(b.delete_one(&mut rng));
    assert_eq!(b.count_nones(), before + 1);
    assert!(b.is_solvable());
}

#[test]
fn degenerate_only_clears_cells() {
    let mut rng = rng_from_seed(33);
    let mut b = Board::new(4, 0, true);
    b.generate_valid(&mut rng);
    let full = b.clone_board();
    b.degenerate(&mut rng);
    for y in 0..4 {
        for x in 0..4 {
            let now = b.get_at(Axis::Row, y, x);
            if !matches!(now, CellState::Empty) {
                assert_eq!(now, full.get_at(Axis::Row, y, x));
            }
        }
    }
}

#[test]
fn hint_names_the_single_forceable_cell() {
    // Only Fill-Majority can move, and only in the first row, where exactly
    // one cell is open: whatever the shuffle does, that cell is the hint.
    for seed in 0..20u64 {
        let mut rng = rng_from_seed(seed);
        let mut b = board_from(&["101_", "____", "____", "____"]);
        b.generate_hint(&mut rng);
        assert_eq!(b.hint, Some((3, 0)));
    }
}

#[test]
fn hint_is_absent_when_no_rule_fires() {
    let mut rng = rng_from_seed(4);
    let mut b = board_from(&["10__", "____", "____", "____"]);
    b.generate_hint(&mut rng);
    assert_eq!(b.hint, None);
}

#[test]
fn hint_marks_a_cell_a_single_pass_fills() {
    let mut rng = rng_from_seed(8);
    let mut b = board_from(&["_11_", "____", "____", "____"]);
    b.generate_hint(&mut rng);
    let (x, y) = b.hint.expect("a rule fires, so a hint exists");
    assert_eq!(y, 0);
    assert!(x == 0 || x == 3);
}

#[test]
fn new_learn_locks_every_given() {
    let mut rng = rng_from_seed(12);
    let (b, attempts) = Board::new_learn(4, 3, &mut rng);
    assert!(attempts >= 1);
    assert_eq!(b.size, 4);
    assert_eq!(b.id, 3);
    // At least one given survives the softening and the minimizer.
    assert!(b.count_nones() < 16);
    for y in 0..4 {
        for x in 0..4 {
            let c = b.get_at(Axis::Row, y, x);
            if !matches!(c, CellState::Empty) {
                assert!(c.is_locked());
            }
        }
    }
    // The given-set is locally irreducible: another pass removes nothing.
    let mut scratch = b.clone_board();
    assert!(!scratch.delete_one(&mut rng));
}

#[test]
fn new_serious_gives_a_solvable_locked_puzzle() {
    let mut rng = rng_from_seed(13);
    let (b, attempts) = Board::new_serious(4, 1, &mut rng);
    assert!(attempts >= 1);
    assert!(b.is_solvable());
    assert!(b.count_nones() < 16);
    for y in 0..4 {
        for x in 0..4 {
            let c = b.get_at(Axis::Row, y, x);
            if !matches!(c, CellState::Empty) {
                assert!(c.is_locked());
            }
        }
    }
    let mut scratch = b.clone_board();
    assert!(!scratch.delete_one(&mut rng));
}

#[test]
fn capture_adopts_only_a_matching_result() {
    let mut rng = rng_from_seed(14);
    let mut worker = Board::new(4, 0, true);
    worker.generate_valid(&mut rng);
    let mut live = Board::new(4, 9, true);
    // Wrong id: discarded.
    assert!(!live.capture_generated_map(worker.clone_board().map, 4, 8));
    assert!(live.has_nones());
    assert!(live.is_generating);
    // Matching id and size: adopted.
    assert!(live.capture_generated_map(worker.clone_board().map, 4, 9));
    assert!(!live.has_nones());
    assert!(!live.is_generating);
    // No generation pending any more: a late duplicate is discarded.
    assert!(!live.capture_generated_map(worker.map, 4, 9));
}

#[test]
fn build_for_mode_honours_the_mode() {
    let mut rng = rng_from_seed(15);
    let sandbox = Board::build_for_mode(4, &GameMode::Sandbox, &mut rng);
    assert_eq!(sandbox.count_nones(), 16);
    let learn = Board::build_for_mode(4, &GameMode::Learn, &mut rng);
    assert!(learn.count_nones() < 16);
}

#[test]
fn build_for_mode_serious_is_locked_and_solvable() {
    let mut rng = rng_from_seed(19);
    let b = Board::build_for_mode(4, &GameMode::Serious, &mut rng);
    assert!(b.count_nones() < 16);
    assert!(b.is_solvable());
    for y in 0..4 {
        for x in 0..4 {
            let c = b.get_at(Axis::Row, y, x);
            if !matches!(c, CellState::Empty) {
                assert!(c.is_locked());
            }
        }
    }
}

#[test]
fn mode_labels_and_descriptions() {
    assert_eq!(GameMode::Sandbox.as_str(), "Sandbox");
    assert_eq!(GameMode::Learn.as_str(), "Learn");
    assert_eq!(GameMode::Serious.as_str(), "Serious");
    assert_eq!(GameMode::Sandbox.info().len(), 3);
    assert_eq!(GameMode::Serious.info().len(), 5);
}

#[test]
fn deseparate_at_certainty_clears_the_middle_of_a_sandwich() {
    let mut rng = rng_from_seed(6);
    let mut b = board_from(&["101_", "____", "____", "____"]);
    let changed = b.deseparate_triples(&mut rng, 100);
    assert!(changed);
    assert_eq!(b.get_at(Axis::Row, 0, 0), CellState::One(false));
    assert_eq!(b.get_at(Axis::Row, 0, 1), CellState::Empty);
    assert_eq!(b.get_at(Axis::Row, 0, 2), CellState::One(false));
}

#[test]
fn desurround_at_certainty_clears_around_a_pair() {
    let mut rng = rng_from_seed(7);
    let mut b = board_from(&["0110", "____", "____", "____"]);
    b.desurround_doubles(&mut rng, 100);
    assert_eq!(b.get_at(Axis::Row, 0, 0), CellState::Empty);
    assert_eq!(b.get_at(Axis::Row, 0, 1), CellState::One(false));
    assert_eq!(b.get_at(Axis::Row, 0, 2), CellState::One(false));
    assert_eq!(b.get_at(Axis::Row, 0, 3), CellState::Empty);
}

#[test]
fn defill_at_certainty_clears_one_digit_of_a_balanced_line() {
    let mut rng = rng_from_seed(10);
    let mut b = board_from(&["1010", "____", "____", "____"]);
    let changed = b.defill_rows(&mut rng, 100);
    assert!(changed);
    let row: Vec<_> = (0..4).map(|x| b.get_at(Axis::Row, 0, x)).collect();
    let empties = row.iter().filter(|c| matches!(c, CellState::Empty)).count();
    assert_eq!(empties, 2);
    let kept_zeros = row.iter().filter(|c| matches!(c, CellState::Zero(_))).count();
    let kept_ones = row.iter().filter(|c| matches!(c, CellState::One(_))).count();
    assert!((kept_zeros == 2 && kept_ones == 0) || (kept_zeros == 0 && kept_ones == 2));
}

#[test]
fn delete_percentage_at_the_extremes() {
    let mut rng = rng_from_seed(16);
    let mut b = board_from(&["0101", "1010", "0110", "1001"]);
    b.delete_percentage(&mut rng, 0);
    assert_eq!(b.count_nones(), 0);
    b.delete_percentage(&mut rng, 100);
    assert_eq!(b.count_nones(), 16);
}

#[test]
fn softening_rules_report_no_change_on_an_empty_grid() {
    let mut rng = rng_from_seed(17);
    let mut b = Board::new(4, 0, false);
    assert!(!b.deseparate_triples(&mut rng, 100));
    assert!(!b.desurround_doubles(&mut rng, 100));
    assert!(!b.defill_rows(&mut rng, 100));
    assert_eq!(b.count_nones(), 16);
}
