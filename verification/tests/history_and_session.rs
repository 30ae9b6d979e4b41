use seating::generate::GenerateError;
use seating::history::{is_valid, read_row, HistoryError, HistoryStore, LoadError};
use seating::layout::section;
use seating::session::Session;

fn in_order() -> Vec<usize> {
    (0..16).collect()
}

fn rotated(by: usize) -> Vec<usize> {
    (0..16).map(|i| (i + by) % 16).collect()
}

fn row(seating: &[usize]) -> Vec<u64> {
    seating.iter().map(|&p| p as u64).collect()
}

fn two_entries() -> HistoryStore {
    HistoryStore::load(&vec![row(&in_order()), row(&rotated(1))]).unwrap()
}

fn error_of(rows: &Vec<Vec<u64>>) -> LoadError {
    match HistoryStore::load(rows) {
        Ok(_) => panic!("the rows loaded"),
        Err(e) => e,
    }
}

#[test]
fn a_full_seating_is_valid() {
    assert!(is_valid(&in_order()));
    assert!(is_valid(&rotated(9)));
    assert!(is_valid(&vec![3, 7, 1, 15, 0, 9, 12, 4, 8, 2, 14, 6, 11, 5, 13, 10]));
}

#[test]
fn a_seating_of_the_wrong_shape_is_not_valid() {
    assert!(!is_valid(&Vec::new()));
    assert!(!is_valid(&(0..15).collect()));
    assert!(!is_valid(&(0..17).collect()));
    let mut twice = in_order();
    twice[4] = 5;
    assert!(!is_valid(&twice));
    let mut off = in_order();
    off[15] = 16;
    assert!(!is_valid(&off));
}

#[test]
fn read_row_names_the_first_flaw() {
    assert_eq!(read_row(&row(&rotated(2))), Ok(rotated(2)));
    assert_eq!(read_row(&vec![0, 1, 2]), Err(LoadError::WrongShape));
    assert_eq!(read_row(&vec![99; 3]), Err(LoadError::WrongShape));
    let mut off = row(&in_order());
    off[3] = 16;
    off[4] = 5;
    assert_eq!(read_row(&off), Err(LoadError::OutOfRange));
    let mut huge = row(&in_order());
    huge[0] = u64::MAX;
    assert_eq!(read_row(&huge), Err(LoadError::OutOfRange));
    let mut twice = row(&in_order());
    twice[4] = 5;
    assert_eq!(read_row(&twice), Err(LoadError::Repeated));
}

#[test]
fn load_keeps_the_rows_in_order() {
    let rows = vec![row(&in_order()), row(&rotated(1)), row(&rotated(2))];
    let store = HistoryStore::load(&rows).unwrap();
    assert_eq!(store.len(), 3);
    assert_eq!(store.snapshot(), vec![in_order(), rotated(1), rotated(2)]);
}

#[test]
fn load_of_nothing_is_an_empty_record() {
    let store = HistoryStore::load(&Vec::new()).unwrap();
    assert_eq!(store.len(), 0);
    assert_eq!(store.snapshot(), Vec::<Vec<usize>>::new());
    assert_eq!(HistoryStore::new().len(), 0);
}

#[test]
fn load_fails_with_the_flaw_of_the_first_bad_row() {
    let mut twice = row(&in_order());
    twice[0] = 1;
    let mut off = row(&in_order());
    off[0] = 16;
    assert_eq!(error_of(&vec![row(&in_order()), vec![1, 2]]), LoadError::WrongShape);
    assert_eq!(error_of(&vec![off.clone(), twice.clone()]), LoadError::OutOfRange);
    assert_eq!(error_of(&vec![twice.clone(), off.clone()]), LoadError::Repeated);
    assert_eq!(error_of(&vec![row(&in_order()), twice, off, Vec::new()]), LoadError::Repeated);
}

#[test]
fn last_two_needs_two_entries() {
    let mut store = HistoryStore::new();
    assert_eq!(store.last_two(), Err(HistoryError::InsufficientHistory));
    store.append(in_order());
    assert_eq!(store.last_two(), Err(HistoryError::InsufficientHistory));
    store.append(rotated(1));
    assert_eq!(store.last_two(), Ok((&in_order(), &rotated(1))));
    store.append(rotated(2));
    assert_eq!(store.last_two(), Ok((&rotated(1), &rotated(2))));
}

#[test]
fn append_adds_at_the_end_and_keeps_the_rest() {
    let mut store = two_entries();
    store.append(rotated(7));
    store.append(rotated(7));
    assert_eq!(store.snapshot(), vec![in_order(), rotated(1), rotated(7), rotated(7)]);
}

#[test]
fn commit_twice_adds_once() {
    let mut store = two_entries();
    let list = rotated(4);
    assert!(store.commit(&list));
    assert!(!store.commit(&list));
    assert!(!store.commit(&list));
    assert_eq!(store.snapshot(), vec![in_order(), rotated(1), rotated(4)]);
}

#[test]
fn commit_looks_only_at_the_last_entry() {
    let mut store = two_entries();
    assert!(!store.commit(&rotated(1)));
    assert!(store.commit(&in_order()));
    assert_eq!(store.snapshot(), vec![in_order(), rotated(1), in_order()]);
    let mut empty = HistoryStore::new();
    assert!(empty.commit(&in_order()));
    assert_eq!(empty.len(), 1);
}

#[test]
fn saved_history_loads_as_it_was() {
    let mut store = two_entries();
    store.append(vec![3, 7, 1, 15, 0, 9, 12, 4, 8, 2, 14, 6, 11, 5, 13, 10]);
    let saved: Vec<Vec<u64>> = store.snapshot().iter().map(|s| row(s)).collect();
    let again = HistoryStore::load(&saved).unwrap();
    assert_eq!(again.snapshot(), store.snapshot());
    assert_eq!(again.len(), 3);
}

#[test]
fn snapshot_is_a_copy() {
    let store = two_entries();
    let mut copy = store.snapshot();
    copy[0][0] = 15;
    copy.pop();
    assert_eq!(store.snapshot(), vec![in_order(), rotated(1)]);
}

#[test]
fn session_needs_two_entries() {
    let one = HistoryStore::load(&vec![row(&in_order())]).unwrap();
    assert!(matches!(Session::new(one), Err(HistoryError::InsufficientHistory)));
    assert!(matches!(Session::new(HistoryStore::new()), Err(HistoryError::InsufficientHistory)));
}

#[test]
fn session_starts_on_the_last_entry() {
    let session = Session::new(two_entries()).unwrap();
    assert_eq!(session.list(), &rotated(1));
    assert_eq!(session.history().snapshot(), vec![in_order(), rotated(1)]);
}

#[test]
fn write_twice_in_a_row_appends_once() {
    let mut session = Session::new(two_entries()).unwrap();
    assert!(!session.write());
    assert_eq!(session.history().len(), 2);
    assert_eq!(session.scramble(10_000_000), Ok(()));
    assert!(session.write());
    assert!(!session.write());
    assert_eq!(session.history().len(), 3);
    assert_eq!(session.history().snapshot()[2], *session.list());
}

#[test]
fn reset_goes_back_to_the_last_commit() {
    let mut session = Session::new(two_entries()).unwrap();
    assert_eq!(session.scramble(10_000_000), Ok(()));
    assert_ne!(session.list(), &rotated(1));
    session.reset();
    assert_eq!(session.list(), &rotated(1));
    assert_eq!(session.history().len(), 2);
    assert!(!session.write());
}

#[test]
fn scramble_without_budget_changes_nothing() {
    let mut session = Session::new(two_entries()).unwrap();
    assert_eq!(session.scramble(0), Err(GenerateError::BudgetExhausted));
    assert_eq!(session.list(), &rotated(1));
}

#[test]
fn scrambles_are_held_against_the_record_not_each_other() {
    let mut session = Session::new(two_entries()).unwrap();
    for _ in 0..3 {
        assert_eq!(session.scramble(10_000_000), Ok(()));
        let list = session.list().clone();
        let previous = in_order();
        let current = rotated(1);
        for seat in 0..16 {
            assert_ne!(list[seat], previous[seat]);
            let was = current.iter().position(|&p| p == list[seat]).unwrap();
            assert_ne!(section(seat), section(was));
        }
        for pair in list.windows(2) {
            let a = current.iter().position(|&p| p == pair[0]).unwrap();
            let b = current.iter().position(|&p| p == pair[1]).unwrap();
            assert!(a.abs_diff(b) != 1);
        }
    }
}

#[test]
fn a_committed_scramble_becomes_what_the_next_is_held_against() {
    let mut session = Session::new(two_entries()).unwrap();
    assert_eq!(session.scramble(10_000_000), Ok(()));
    let first = session.list().clone();
    assert!(session.write());
    assert_eq!(session.scramble(10_000_000), Ok(()));
    let second = session.list().clone();
    for seat in 0..16 {
        assert_ne!(second[seat], rotated(1)[seat]);
        let was = first.iter().position(|&p| p == second[seat]).unwrap();
        assert_ne!(section(seat), section(was));
    }
    for pair in second.windows(2) {
        let a = first.iter().position(|&p| p == pair[0]).unwrap();
        let b = first.iter().position(|&p| p == pair[1]).unwrap();
        assert!(a.abs_diff(b) != 1);
    }
}
