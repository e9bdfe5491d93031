use takuzu::cell::CellState;

#[test]
fn from_bool_gives_unlocked_digits() {
    assert!(matches!(CellState::from_bool(true), CellState::One(false)));
    assert!(matches!(CellState::from_bool(false), CellState::Zero(false)));
}

#[test]
fn next_cycles_empty_zero_one() {
    assert!(matches!(CellState::Empty.next(), CellState::Zero(false)));
    assert!(matches!(CellState::Zero(false).next(), CellState::One(false)));
    assert!(matches!(CellState::One(false).next(), CellState::Empty));
}

#[test]
fn prev_cycles_the_other_way() {
    assert!(matches!(CellState::Empty.prev(), CellState::One(false)));
    assert!(matches!(CellState::One(true).prev(), CellState::Zero(false)));
    assert!(matches!(CellState::Zero(true).prev(), CellState::Empty));
}

#[test]
fn inverse_swaps_digits_and_keeps_empty() {
    assert!(matches!(CellState::Zero(true).inverse(), CellState::One(false)));
    assert!(matches!(CellState::One(false).inverse(), CellState::Zero(false)));
    assert!(matches!(CellState::Empty.inverse(), CellState::Empty));
}

#[test]
fn is_locked_reads_the_flag() {
    assert!(CellState::Zero(true).is_locked());
    assert!(CellState::One(true).is_locked());
    assert!(!CellState::Zero(false).is_locked());
    assert!(!CellState::Empty.is_locked());
}

#[test]
fn equality_ignores_the_locked_flag() {
    assert_eq!(CellState::Zero(true), CellState::Zero(false));
    assert_eq!(CellState::One(false), CellState::One(true));
    assert_eq!(CellState::Empty, CellState::Empty);
    assert_ne!(CellState::Zero(false), CellState::One(false));
    assert_ne!(CellState::Empty, CellState::Zero(false));
}
