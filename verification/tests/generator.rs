use seating::generate::{
    draw_seating, generate_seating, has_repeated_neighbours, seat_weights, GenerateError,
};
use seating::layout::section;
use seating::neighbours::{generate_neighbours, neighbors_of};
use seating::search::{
    generate_seating_from_map, holds, pick_weighted, total_weight, SEARCH_LIMIT,
};
use seating::weights::HeatMap;
use std::collections::{HashMap, HashSet};

fn in_order() -> Vec<usize> {
    (0..16).collect()
}

fn rotated(by: usize) -> Vec<usize> {
    (0..16).map(|i| (i + by) % 16).collect()
}

fn is_permutation(list: &[usize]) -> bool {
    let mut seen = [false; 16];
    for &p in list {
        if p >= 16 || seen[p] {
            return false;
        }
        seen[p] = true;
    }
    list.len() == 16
}

fn seat_of(list: &[usize], person: usize) -> usize {
    list.iter().position(|&p| p == person).unwrap()
}

fn sat_together(list: &[usize], a: usize, b: usize) -> bool {
    list.windows(2).any(|w| (w[0] == a && w[1] == b) || (w[0] == b && w[1] == a))
}

fn check_rules(previous: &[usize], current: &[usize], result: &[usize]) {
    assert!(is_permutation(result));
    for seat in 0..16 {
        assert_ne!(result[seat], previous[seat]);
    }
    for person in 0..16 {
        assert_ne!(
            section(seat_of(result, person)).unwrap(),
            section(seat_of(current, person)).unwrap()
        );
    }
    for pair in current.windows(2) {
        assert!(!sat_together(result, pair[0], pair[1]));
    }
}

#[test]
fn weights_start_open_everywhere() {
    let map = HeatMap::default();
    for seat in 0..16 {
        assert_eq!(map.index(seat), 1);
    }
}

#[test]
fn weights_change_one_seat_at_a_time() {
    let mut map = HeatMap::default();
    map.index_mut(5, 0);
    map.index_mut(9, 7);
    for seat in 0..16 {
        let expected = match seat {
            5 => 0,
            9 => 7,
            _ => 1,
        };
        assert_eq!(map.index(seat), expected);
    }
}

#[test]
fn neighbours_of_a_row_in_order() {
    let table = generate_neighbours(&in_order());
    assert_eq!(table.len(), 16);
    assert_eq!(table[&0], HashSet::from([1]));
    assert_eq!(table[&15], HashSet::from([14]));
    for p in 1..15 {
        assert_eq!(table[&p], HashSet::from([p - 1, p + 1]));
    }
}

#[test]
fn neighbours_of_two_seats() {
    let table = generate_neighbours(&[7, 3]);
    assert_eq!(table.len(), 2);
    assert_eq!(table[&7], HashSet::from([3]));
    assert_eq!(table[&3], HashSet::from([7]));
}

#[test]
fn neighbours_follow_the_people_not_the_seats() {
    let seating: Vec<usize> = vec![3, 7, 1, 15, 0, 9, 12, 4, 8, 2, 14, 6, 11, 5, 13, 10];
    let table = generate_neighbours(&seating);
    assert_eq!(table[&3], HashSet::from([7]));
    assert_eq!(table[&10], HashSet::from([13]));
    assert_eq!(table[&0], HashSet::from([15, 9]));
    assert_eq!(table[&12], HashSet::from([9, 4]));
}

#[test]
fn neighbours_keep_the_entry_written_last_for_a_repeated_person() {
    let table = generate_neighbours(&[1, 2, 1, 3]);
    assert_eq!(table.len(), 3);
    assert_eq!(table[&1], HashSet::from([2, 3]));
    assert_eq!(table[&2], HashSet::from([1]));
    assert_eq!(table[&3], HashSet::from([1]));
    let ends = generate_neighbours(&[5, 6, 5]);
    assert_eq!(ends[&5], HashSet::from([6]));
    assert_eq!(ends[&6], HashSet::from([5]));
}

#[test]
fn repeated_neighbours_are_found_in_either_seat_order() {
    let table = generate_neighbours(&in_order());
    let mut list: Vec<usize> = vec![0, 2, 4, 6, 8, 10, 12, 14, 1, 3, 5, 7, 9, 11, 13, 15];
    assert!(!has_repeated_neighbours(&list, &table));
    list.swap(15, 7);
    assert!(has_repeated_neighbours(&list, &table));
    assert!(has_repeated_neighbours(&in_order(), &table));
    let backwards: Vec<usize> = (0..16).rev().collect();
    assert!(has_repeated_neighbours(&backwards, &table));
}

#[test]
fn repeated_neighbours_looks_only_at_consecutive_seats() {
    let mut table: HashMap<usize, HashSet<usize>> = HashMap::new();
    table.insert(0, HashSet::from([2]));
    table.insert(1, HashSet::new());
    table.insert(2, HashSet::new());
    assert!(!has_repeated_neighbours(&vec![0, 1, 2], &table));
    assert!(has_repeated_neighbours(&vec![1, 0, 2], &table));
    assert!(!has_repeated_neighbours(&vec![2, 0, 1], &table));
    assert!(!has_repeated_neighbours(&vec![0], &table));
    assert!(!has_repeated_neighbours(&Vec::new(), &table));
}

#[test]
fn holds_finds_what_is_listed() {
    assert!(holds(&vec![4, 8, 15], 15));
    assert!(!holds(&vec![4, 8, 15], 16));
    assert!(!holds(&Vec::new(), 0));
}

#[test]
fn rule_weights_close_the_old_seat_and_the_old_section() {
    let previous = in_order();
    let current = rotated(1);
    let people = seat_weights(&previous, &current);
    for person in 0..16 {
        let was = seat_of(&current, person);
        for seat in 0..16 {
            let closed = previous[seat] == person || section(seat) == section(was);
            assert_eq!(people[person].index(seat), if closed { 0 } else { 1 });
        }
    }
}

#[test]
fn total_weight_counts_the_free_people() {
    let people = [HeatMap::default(); 16];
    assert_eq!(total_weight(&people, &Vec::new(), &HashSet::new()), 16);
    assert_eq!(total_weight(&people, &vec![3, 4], &HashSet::from([9])), 13);
    assert_eq!(total_weight(&people, &vec![3, 4], &HashSet::from([3])), 14);
}

#[test]
fn pick_walks_the_running_total() {
    let mut people = [HeatMap::default(); 16];
    for person in 0..16 {
        people[person].index_mut(0, 0);
    }
    people[2].index_mut(0, 3);
    people[5].index_mut(0, 2);
    people[9].index_mut(0, 4);
    let nobody = HashSet::new();
    assert_eq!(total_weight(&people, &Vec::new(), &nobody), 9);
    let expected = [2, 2, 2, 5, 5, 9, 9, 9, 9];
    for draw in 0..9 {
        assert_eq!(pick_weighted(&people, &Vec::new(), &nobody, draw as u64), expected[draw]);
    }
    let without_five = HashSet::from([5]);
    assert_eq!(total_weight(&people, &Vec::new(), &without_five), 7);
    assert_eq!(pick_weighted(&people, &Vec::new(), &without_five, 3), 9);
}

#[test]
fn pick_skips_the_people_already_seated() {
    let people = [HeatMap::default(); 16];
    let placed = vec![0, 1, 2];
    assert_eq!(pick_weighted(&people, &placed, &HashSet::new(), 0), 3);
    assert_eq!(pick_weighted(&people, &placed, &HashSet::from([3, 4]), 0), 5);
    assert_eq!(pick_weighted(&people, &placed, &HashSet::new(), 12), 15);
}

#[test]
fn search_with_open_weights_seats_everyone_once() {
    let people = [HeatMap::default(); 16];
    for _ in 0..50 {
        let mut steps = 1000;
        let found = generate_seating_from_map(&people, Vec::new(), &mut steps).unwrap();
        assert!(is_permutation(&found));
        assert_eq!(steps, 1000 - 16);
    }
}

#[test]
fn search_keeps_the_seats_already_filled() {
    let people = [HeatMap::default(); 16];
    let mut steps = 1000;
    let found = generate_seating_from_map(&people, vec![9, 3, 12], &mut steps).unwrap();
    assert_eq!(&found[..3], &[9, 3, 12]);
    assert!(is_permutation(&found));
    assert_eq!(steps, 1000 - 13);
}

#[test]
fn search_hands_back_a_full_seating_for_free() {
    let people = [HeatMap::default(); 16];
    let full = rotated(5);
    let mut steps = 0;
    assert_eq!(generate_seating_from_map(&people, full.clone(), &mut steps), Some(full));
    assert_eq!(steps, 0);
}

#[test]
fn search_stops_when_the_steps_run_out() {
    let people = [HeatMap::default(); 16];
    let mut steps = 15;
    assert_eq!(generate_seating_from_map(&people, Vec::new(), &mut steps), None);
    assert_eq!(steps, 0);
    let mut none = 0;
    assert_eq!(generate_seating_from_map(&people, Vec::new(), &mut none), None);
    assert_eq!(none, 0);
}

#[test]
fn search_never_uses_a_closed_seat() {
    let people = seat_weights(&in_order(), &rotated(3));
    for _ in 0..50 {
        let mut steps = 1_000_000;
        let found = generate_seating_from_map(&people, Vec::new(), &mut steps).unwrap();
        assert!(is_permutation(&found));
        for seat in 0..16 {
            assert_eq!(people[found[seat]].index(seat), 1);
        }
    }
}

#[test]
fn search_finds_the_only_seating_there_is() {
    let mut people = [HeatMap::default(); 16];
    let only = rotated(7);
    for person in 0..16 {
        for seat in 0..16 {
            people[person].index_mut(seat, if only[seat] == person { 1 } else { 0 });
        }
    }
    let mut steps = 16;
    assert_eq!(generate_seating_from_map(&people, Vec::new(), &mut steps), Some(only));
    assert_eq!(steps, 0);
}

#[test]
fn search_steps_back_out_of_a_trap() {
    // Of the four people still to seat only person 0 may take the last seat,
    // yet is welcome on every seat: whenever the draw seats them early, the
    // search has to take that back.
    let mut people = [HeatMap::default(); 16];
    for person in 1..16 {
        people[person].index_mut(15, 0);
    }
    let filled: Vec<usize> = (1..13).collect();
    let mut took_back = false;
    for _ in 0..200 {
        let mut steps = 1000;
        let found = generate_seating_from_map(&people, filled.clone(), &mut steps).unwrap();
        assert!(is_permutation(&found));
        assert_eq!(&found[..12], &filled[..]);
        assert_eq!(found[15], 0);
        if steps < 1000 - 4 {
            took_back = true;
        }
    }
    assert!(took_back);
}

#[test]
fn search_gives_up_when_a_seat_is_closed_to_all() {
    let mut people = [HeatMap::default(); 16];
    for person in 0..16 {
        people[person].index_mut(15, 0);
    }
    let mut steps = 100_000;
    let filled = vec![0, 1, 2, 3, 4, 5, 6, 7, 8, 9, 10];
    assert_eq!(generate_seating_from_map(&people, filled, &mut steps), None);
    assert!(steps > 0);
}

#[test]
fn drawing_reports_weights_that_admit_nothing() {
    let mut people = [HeatMap::default(); 16];
    for person in 0..16 {
        people[person].index_mut(0, 0);
    }
    let table = generate_neighbours(&in_order());
    assert_eq!(draw_seating(&people, &table, 1000), Err(GenerateError::Infeasible));
    assert_eq!(draw_seating(&people, &table, 0), Err(GenerateError::BudgetExhausted));
}

#[test]
fn drawing_avoids_the_listed_neighbours() {
    let people = [HeatMap::default(); 16];
    let table = generate_neighbours(&in_order());
    for _ in 0..10 {
        let found = draw_seating(&people, &table, 10_000_000).unwrap();
        assert!(is_permutation(&found));
        for pair in found.windows(2) {
            assert!(pair[0].abs_diff(pair[1]) != 1);
        }
    }
}

#[test]
fn generated_seating_meets_all_three_rules() {
    let previous = in_order();
    let current = rotated(1);
    let table = generate_neighbours(&current);
    let mut list = current.clone();
    let done = generate_seating(&mut list, &[&previous, &current], &table, 10_000_000);
    assert_eq!(done, Ok(()));
    check_rules(&previous, &current, &list);
}

#[test]
fn generated_seatings_meet_the_rules_again_and_again() {
    let mut previous = in_order();
    let mut current = rotated(5);
    for _ in 0..5 {
        let table = generate_neighbours(&current);
        let mut list = current.clone();
        let done = generate_seating(&mut list, &[&previous, &current], &table, 10_000_000);
        assert_eq!(done, Ok(()));
        check_rules(&previous, &current, &list);
        previous = current;
        current = list;
    }
}

#[test]
fn no_budget_means_no_seating() {
    let previous = in_order();
    let current = rotated(1);
    let table = generate_neighbours(&current);
    let mut list = vec![42];
    let done = generate_seating(&mut list, &[&previous, &current], &table, 0);
    assert_eq!(done, Err(GenerateError::BudgetExhausted));
    assert_eq!(list, vec![42]);
}

#[test]
fn budget_runs_out_when_every_pair_counts_as_neighbours() {
    let previous = in_order();
    let current = rotated(1);
    let everyone: HashSet<usize> = (0..16).collect();
    let table: HashMap<usize, HashSet<usize>> = (0..16).map(|p| (p, everyone.clone())).collect();
    let mut list = current.clone();
    let done = generate_seating(&mut list, &[&previous, &current], &table, 2000);
    assert_eq!(done, Err(GenerateError::BudgetExhausted));
    assert_eq!(list, current);
}

#[test]
fn budget_too_small_for_one_seating_runs_out() {
    let previous = in_order();
    let current = rotated(1);
    let table = generate_neighbours(&current);
    let mut list = current.clone();
    let done = generate_seating(&mut list, &[&previous, &current], &table, 15);
    assert_eq!(done, Err(GenerateError::BudgetExhausted));
    assert_eq!(list, current);
}

#[test]
fn neighbors_of_a_seat_are_the_people_beside_it() {
    let seating: Vec<usize> = vec![3, 7, 1, 15, 0, 9, 12, 4, 8, 2, 14, 6, 11, 5, 13, 10];
    assert_eq!(neighbors_of(&seating, 0), HashSet::from([7]));
    assert_eq!(neighbors_of(&seating, 1), HashSet::from([3, 1]));
    assert_eq!(neighbors_of(&seating, 8), HashSet::from([4, 2]));
    assert_eq!(neighbors_of(&seating, 15), HashSet::from([13]));
}

#[test]
fn neighbors_of_a_seat_in_a_short_row() {
    assert_eq!(neighbors_of(&[4], 0), HashSet::new());
    assert_eq!(neighbors_of(&[4, 9], 0), HashSet::from([9]));
    assert_eq!(neighbors_of(&[4, 9], 1), HashSet::from([4]));
    assert_eq!(neighbors_of(&[4, 9, 4], 1), HashSet::from([4]));
}

#[test]
fn neighbour_table_holds_what_neighbors_of_gives() {
    let seating: Vec<usize> = vec![3, 7, 1, 15, 0, 9, 12, 4, 8, 2, 14, 6, 11, 5, 13, 10];
    let table = generate_neighbours(&seating);
    for seat in 0..16 {
        assert_eq!(table[&seating[seat]], neighbors_of(&seating, seat));
    }
}

#[test]
fn search_limit_counts_every_way_to_start_a_row() {
    // One step for every way to seat one person, two people, and so on up to
    // all sixteen.
    let mut ways: u64 = 1;
    let mut total: u64 = 0;
    for seated in 0..16u64 {
        ways *= 16 - seated;
        total += ways;
    }
    assert_eq!(SEARCH_LIMIT, total);
    assert_eq!(SEARCH_LIMIT, 56_874_039_553_216);
}
