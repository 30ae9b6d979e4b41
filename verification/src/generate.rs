//! The rules that a new seating must meet against the two most recent ones,
//! and the generator that draws seatings until one meets them all.

use vstd::prelude::*;
use std::collections::HashMap;
use std::collections::HashSet;
use crate::layout::{section_of, zone, SEATS};
use crate::neighbours::{beside, decides, is_neighbour_table};
use crate::search::{
    completes,
    dead_end,
    generate_seating_from_map,
    lemma_search_limit,
    placed_well,
    search_bound,
    unseated,
    weight_at,
    SEARCH_LIMIT,
};
use crate::weights::HeatMap;

verus! {

broadcast use vstd::std_specs::hash::group_hash_axioms;

/// Why no seating was produced.
#[derive(Clone, Copy, Debug, PartialEq, Eq, Structural)]
pub enum GenerateError {
    /// No seating at all meets the seat rule and the section rule.
    Infeasible,
    /// The step budget ran out before a seating was found that repeats no
    /// pair of neighbours.
    BudgetExhausted,
}

/// Every listed person is on the roster.
pub open spec fn on_roster(seating: Seq<usize>) -> bool {
    forall|i: int| 0 <= i < seating.len() ==> seating[i] < SEATS
}

/// A full seating: sixteen seats, each person of the roster on exactly one.
pub open spec fn is_arrangement(seating: Seq<usize>) -> bool {
    &&& seating.len() == SEATS
    &&& on_roster(seating)
    &&& seating.no_duplicates()
}

/// Nobody sits where `previous` had them.
pub open spec fn no_seat_repeat(previous: Seq<usize>, result: Seq<usize>) -> bool {
    forall|i: int| 0 <= i < result.len() && i < previous.len() ==> result[i] != previous[i]
}

/// Nobody sits in a section in which `current` had them.
pub open spec fn no_section_repeat(current: Seq<usize>, result: Seq<usize>) -> bool {
    forall|i: int, j: int|
        0 <= i < result.len() && 0 <= j < current.len() && result[i] == current[j] ==> section_of(
            i,
        ) != section_of(j)
}

/// `a` and `b` sit on two seats next to each other, in either order.
pub open spec fn side_by_side(seating: Seq<usize>, a: usize, b: usize) -> bool {
    exists|i: int|
        0 <= i && i + 1 < seating.len() && ((#[trigger] seating[i] == a && seating[i + 1] == b) || (
        seating[i] == b && seating[i + 1] == a))
}

/// No two people who sat side by side in `current` sit side by side in
/// `result`.
pub open spec fn no_adjacency_repeat(current: Seq<usize>, result: Seq<usize>) -> bool {
    forall|a: usize, b: usize| #[trigger]
        side_by_side(current, a, b) ==> !side_by_side(result, a, b)
}

/// `person` may not take `seat`: `previous` had them there, or `current` had
/// them in the same section.
pub open spec fn blocked(previous: Seq<usize>, current: Seq<usize>, person: int, seat: int) -> bool {
    ||| (0 <= seat < previous.len() && previous[seat] == person)
    ||| exists|j: int|
        0 <= j < current.len() && current[j] == person && section_of(j) == section_of(seat)
}

/// The weights that stand for the seat rule and the section rule: nothing
/// where a person is blocked, one everywhere else.
pub open spec fn is_rule_weights(
    people: [HeatMap; 16],
    previous: Seq<usize>,
    current: Seq<usize>,
) -> bool {
    forall|person: int, seat: int|
        0 <= person < SEATS && 0 <= seat < SEATS ==> #[trigger] weight_at(people, person, seat)
            == if blocked(previous, current, person, seat) {
            0int
        } else {
            1int
        }
}

/// A seating that meets the seat rule and the section rule.
pub open spec fn feasible(previous: Seq<usize>, current: Seq<usize>, result: Seq<usize>) -> bool {
    &&& is_arrangement(result)
    &&& no_seat_repeat(previous, result)
    &&& no_section_repeat(current, result)
}

/// Nothing meets the seat rule and the section rule against this pair.
pub open spec fn infeasible(previous: Seq<usize>, current: Seq<usize>) -> bool {
    forall|any: Seq<usize>| !feasible(previous, current, any)
}

/// A seating that may follow `previous` and `current`: full, and in line with
/// the seat rule, the section rule and the neighbour rule.
pub open spec fn meets_rules(previous: Seq<usize>, current: Seq<usize>, result: Seq<usize>) -> bool {
    &&& feasible(previous, current, result)
    &&& no_adjacency_repeat(current, result)
}

/// Seat `i` and the next one hold a pair that the table lists as neighbours.
pub open spec fn repeats_at(list: Seq<usize>, table: Map<usize, HashSet<usize>>, i: int) -> bool {
    table[list[i]]@.contains(list[i + 1])
}

/// Under rule weights, the seatings that the search can complete from
/// nothing are exactly the feasible ones.
pub proof fn lemma_completes_is_feasible(
    people: [HeatMap; 16],
    previous: Seq<usize>,
    current: Seq<usize>,
    result: Seq<usize>,
)
    requires
        is_rule_weights(people, previous, current),
    ensures
        completes(people, Seq::<usize>::empty(), result) <==> feasible(previous, current, result),
{
    let empty = Seq::<usize>::empty();
    if completes(people, empty, result) {
        assert forall|i: int| 0 <= i < result.len() implies result[i] < SEATS by {
            assert(placed_well(people, result, i));
        }
        assert forall|i: int, j: int|
            0 <= i < result.len() && 0 <= j < result.len() && i != j implies result[i]
            != result[j] by {
            assert(placed_well(people, result, i));
            assert(placed_well(people, result, j));
        }
        assert forall|i: int| 0 <= i < result.len() && i < previous.len() implies result[i]
            != previous[i] by {
            assert(placed_well(people, result, i));
            assert(weight_at(people, result[i] as int, i) > 0);
            assert(!blocked(previous, current, result[i] as int, i));
        }
        assert forall|i: int, j: int|
            0 <= i < result.len() && 0 <= j < current.len() && result[i]
                == current[j] implies section_of(i) != section_of(j) by {
            assert(placed_well(people, result, i));
            assert(weight_at(people, result[i] as int, i) > 0);
            assert(!blocked(previous, current, result[i] as int, i));
        }
    }
    if feasible(previous, current, result) {
        assert forall|i: int| 0 <= i < SEATS implies placed_well(people, result, i) by {
            let p = result[i] as int;
            if blocked(previous, current, p, i) {
                if !(0 <= i < previous.len() && previous[i] == p) {
                    let j = choose|j: int|
                        0 <= j < current.len() && current[j] == p && section_of(j) == section_of(
                            i,
                        );
                    assert(result[i] == current[j]);
                }
            }
            assert(weight_at(people, p, i) == 1);
        }
    }
}

/// The map with every seat of section `sec` closed to the person.
fn close_section(map: HeatMap, sec: usize) -> (closed: HeatMap)
    ensures
        forall|s: int|
            0 <= s < SEATS ==> #[trigger] closed@[s] == if section_of(s) == sec {
                0u32
            } else {
                map@[s]
            },
{
    let mut closed: HeatMap = map;
    let mut spot: usize = 0;
    while spot < SEATS
        invariant
            spot <= SEATS,
            forall|s: int|
                0 <= s < SEATS ==> #[trigger] closed@[s] == if s < spot && section_of(s) == sec {
                    0u32
                } else {
                    map@[s]
                },
        decreases SEATS - spot,
    {
        if zone(spot) == sec {
            closed.index_mut(spot, 0);
        }
        spot = spot + 1;
    }
    closed
}

/// Builds the rule weights for a pair of seatings: each person loses the seat
/// that `previous` gave them and the whole section in which `current` has
/// them.
pub fn seat_weights(previous: &Vec<usize>, current: &Vec<usize>) -> (people: [HeatMap; 16])
    requires
        previous@.len() <= SEATS,
        current@.len() <= SEATS,
        on_roster(previous@),
        on_roster(current@),
    ensures
        is_rule_weights(people, previous@, current@),
{
    let open = HeatMap::default();
    let mut people: [HeatMap; 16] = [open;16];
    let mut seat: usize = 0;
    while seat < previous.len()
        invariant
            seat <= previous@.len() <= SEATS,
            on_roster(previous@),
            forall|p: int, s: int|
                0 <= p < SEATS && 0 <= s < SEATS ==> #[trigger] weight_at(people, p, s) == if s
                    < seat && previous@[s] == p {
                    0int
                } else {
                    1int
                },
        decreases previous@.len() - seat,
    {
        let person: usize = previous[seat];
        let mut map: HeatMap = people[person];
        map.index_mut(seat, 0);
        let ghost before = people;
        people[person] = map;
        assert forall|p: int, s: int| 0 <= p < SEATS && 0 <= s < SEATS implies #[trigger] weight_at(
            people,
            p,
            s,
        ) == if s < seat + 1 && previous@[s] == p {
            0int
        } else {
            1int
        } by {
            assert(weight_at(before, p, s) == if s < seat && previous@[s] == p {
                0int
            } else {
                1int
            });
        }
        seat = seat + 1;
    }
    let mut seat: usize = 0;
    while seat < current.len()
        invariant
            seat <= current@.len() <= SEATS,
            on_roster(current@),
            forall|p: int, s: int|
                0 <= p < SEATS && 0 <= s < SEATS ==> #[trigger] weight_at(people, p, s) == if (0
                    <= s < previous@.len() && previous@[s] == p) || (exists|j: int|
                    0 <= j < seat && current@[j] == p && section_of(j) == section_of(s)) {
                    0int
                } else {
                    1int
                },
        decreases current@.len() - seat,
    {
        let person: usize = current[seat];
        let map: HeatMap = close_section(people[person], zone(seat));
        let ghost before = people;
        people[person] = map;
        assert forall|p: int, s: int| 0 <= p < SEATS && 0 <= s < SEATS implies #[trigger] weight_at(
            people,
            p,
            s,
        ) == if (0 <= s < previous@.len() && previous@[s] == p) || (exists|j: int|
            0 <= j < seat + 1 && current@[j] == p && section_of(j) == section_of(s)) {
            0int
        } else {
            1int
        } by {
            let was = (0 <= s < previous@.len() && previous@[s] == p) || (exists|j: int|
                0 <= j < seat && current@[j] == p && section_of(j) == section_of(s));
            assert(weight_at(before, p, s) == if was {
                0int
            } else {
                1int
            });
            if p == person && section_of(s) == section_of(seat as int) {
                assert(0 <= seat < seat + 1 && current@[seat as int] == p && section_of(
                    seat as int,
                ) == section_of(s));
            }
        }
        seat = seat + 1;
    }
    people
}

/// The pairs of people on consecutive seats, in seat order, as
/// `itertools::Itertools::tuple_windows` yields them for windows of two: one
/// pair for each seat but the last, made of its occupant and the next one,
/// and none for a list of fewer than two.
#[verifier::external_body]
fn seat_pairs(list: &Vec<usize>) -> (pairs: Vec<(usize, usize)>)
    ensures
        list@.len() == 0 ==> pairs@.len() == 0,
        list@.len() > 0 ==> pairs@.len() == list@.len() - 1,
        forall|i: int| 0 <= i < pairs@.len() ==> pairs@[i] == (list@[i], list@[i + 1]),
{
    itertools::Itertools::tuple_windows(list.iter().copied()).collect()
}

/// True when some two consecutive seats of `list` hold a pair that the table
/// lists as neighbours: the second is in the entry of the first.
pub fn has_repeated_neighbours(list: &Vec<usize>, neighbours: &HashMap<usize, HashSet<usize>>) -> (r:
    bool)
    requires
        forall|i: int| 0 <= i < list@.len() - 1 ==> neighbours@.contains_key(#[trigger] list@[i]),
    ensures
        r == exists|i: int| 0 <= i < list@.len() - 1 && repeats_at(list@, neighbours@, i),
{
    let pairs: Vec<(usize, usize)> = seat_pairs(list);
    let mut k: usize = 0;
    while k < pairs.len()
        invariant
            k <= pairs@.len(),
            list@.len() == 0 ==> pairs@.len() == 0,
            list@.len() > 0 ==> pairs@.len() == list@.len() - 1,
            forall|i: int| 0 <= i < pairs@.len() ==> pairs@[i] == (list@[i], list@[i + 1]),
            forall|i: int| 0 <= i < list@.len() - 1 ==> neighbours@.contains_key(#[trigger] list@[i]),
            forall|i: int| 0 <= i < k ==> !repeats_at(list@, neighbours@, i),
        decreases pairs@.len() - k,
    {
        let pair: (usize, usize) = pairs[k];
        assert(neighbours@.contains_key(list@[k as int]));
        if let Some(entry) = neighbours.get(&pair.0) {
            if entry.contains(&pair.1) {
                assert(repeats_at(list@, neighbours@, k as int));
                return true;
            }
        }
        k = k + 1;
    }
    false
}

/// A seating that repeats no pair of the table of `current` repeats no pair
/// of neighbours of `current`, when `current` seats nobody twice.
pub proof fn lemma_table_rules_out_pairs(
    table: Map<usize, HashSet<usize>>,
    current: Seq<usize>,
    result: Seq<usize>,
)
    requires
        is_neighbour_table(table, current),
        current.no_duplicates(),
        forall|i: int| 0 <= i < result.len() - 1 ==> !repeats_at(result, table, i),
    ensures
        no_adjacency_repeat(current, result),
{
    assert forall|a: usize, b: usize| #[trigger]
        side_by_side(current, a, b) implies !side_by_side(result, a, b) by {
        if side_by_side(result, a, b) {
            let j = choose|j: int|
                0 <= j && j + 1 < current.len() && ((#[trigger] current[j] == a && current[j + 1]
                    == b) || (current[j] == b && current[j + 1] == a));
            let i = choose|i: int|
                0 <= i && i + 1 < result.len() && ((#[trigger] result[i] == a && result[i + 1]
                    == b) || (result[i] == b && result[i + 1] == a));
            assert(decides(current, j));
            assert(decides(current, j + 1));
            assert(table[current[j]]@ == beside(current, j));
            assert(table[current[j + 1]]@ == beside(current, j + 1));
            assert(beside(current, j).contains(current[j + 1]));
            assert(beside(current, j + 1).contains(current[j]));
            assert(repeats_at(result, table, i));
        }
    }
}

/// Draws seatings from the weights until one repeats no pair of
/// `neighbours`, seating at most `budget` people on the way, counted over
/// all attempts and with those taken back.
///
/// `Infeasible` means that the weights admit no seating at all: the search
/// came to its end with steps to spare. `BudgetExhausted` means that the
/// steps ran out first. With more than `SEARCH_LIMIT` steps, weights that
/// admit nothing are always found out.
pub fn draw_seating(
    people: &[HeatMap; 16],
    neighbours: &HashMap<usize, HashSet<usize>>,
    budget: u64,
) -> (r: Result<Vec<usize>, GenerateError>)
    requires
        forall|p: usize| p < SEATS ==> neighbours@.contains_key(p),
    ensures
        match r {
            Ok(list) => {
                &&& completes(*people, Seq::<usize>::empty(), list@)
                &&& forall|i: int| 0 <= i < SEATS - 1 ==> !repeats_at(list@, neighbours@, i)
            },
            Err(GenerateError::Infeasible) => budget > 0 && dead_end(
                *people,
                Seq::<usize>::empty(),
            ),
            Err(GenerateError::BudgetExhausted) => true,
        },
        budget == 0 ==> r == Err::<Vec<usize>, GenerateError>(GenerateError::BudgetExhausted),
        budget > SEARCH_LIMIT && dead_end(*people, Seq::<usize>::empty()) ==> r == Err::<
            Vec<usize>,
            GenerateError,
        >(GenerateError::Infeasible),
{
    let mut steps: u64 = budget;
    proof {
        lemma_search_limit();
    }
    while steps > 0
        invariant
            steps <= budget,
            budget > SEARCH_LIMIT ==> steps == budget || !dead_end(
                *people,
                Seq::<usize>::empty(),
            ),
            search_bound(unseated(Seq::<usize>::empty())) == SEARCH_LIMIT,
            forall|p: usize| p < SEATS ==> neighbours@.contains_key(p),
        decreases steps,
    {
        let nobody: Vec<usize> = Vec::new();
        assert(nobody@ =~= Seq::<usize>::empty());
        match generate_seating_from_map(people, nobody, &mut steps) {
            None => {
                if steps > 0 {
                    return Err(GenerateError::Infeasible);
                }
            },
            Some(candidate) => {
                proof {
                    assert(completes(*people, Seq::<usize>::empty(), candidate@));
                    assert forall|i: int| 0 <= i < candidate@.len() - 1 implies neighbours@.contains_key(
                        #[trigger] candidate@[i],
                    ) by {
                        assert(placed_well(*people, candidate@, i));
                    }
                }
                if !has_repeated_neighbours(&candidate, neighbours) {
                    return Ok(candidate);
                }
            },
        }
    }
    Err(GenerateError::BudgetExhausted)
}

/// Draws seatings for the pair `seating` (the one before last, then the
/// last) until one repeats no pair of `neighbours`, and stores it in `list`.
/// At most `budget` people are seated on the way, counted over all attempts
/// and with those taken back.
///
/// Every seating drawn already keeps each person off the seat that the first
/// of the pair gave them and out of the section in which the second has them.
/// When the search finds out that no seating can do that, the answer is
/// `Infeasible`, and with more than `SEARCH_LIMIT` steps it always finds
/// out; when the steps run out, `BudgetExhausted`. Either way `list` is left
/// as it was.
pub fn generate_seating(
    list: &mut Vec<usize>,
    seating: &[&Vec<usize>; 2],
    neighbours: &HashMap<usize, HashSet<usize>>,
    budget: u64,
) -> (r: Result<(), GenerateError>)
    requires
        seating@[0]@.len() <= SEATS,
        seating@[1]@.len() <= SEATS,
        on_roster(seating@[0]@),
        on_roster(seating@[1]@),
        forall|p: usize| p < SEATS ==> neighbours@.contains_key(p),
    ensures
        match r {
            Ok(()) => {
                &&& feasible(seating@[0]@, seating@[1]@, final(list)@)
                &&& forall|i: int|
                    0 <= i < SEATS - 1 ==> !repeats_at(final(list)@, neighbours@, i)
                &&& is_neighbour_table(neighbours@, seating@[1]@) && seating@[1]@.no_duplicates()
                    ==> meets_rules(seating@[0]@, seating@[1]@, final(list)@)
            },
            Err(GenerateError::Infeasible) => {
                &&& budget > 0
                &&& *final(list) == *old(list)
                &&& infeasible(seating@[0]@, seating@[1]@)
            },
            Err(GenerateError::BudgetExhausted) => *final(list) == *old(list),
        },
        budget == 0 ==> r == Err::<(), GenerateError>(GenerateError::BudgetExhausted),
        budget > SEARCH_LIMIT && infeasible(seating@[0]@, seating@[1]@) ==> r == Err::<
            (),
            GenerateError,
        >(GenerateError::Infeasible),
{
    let previous_seating: &Vec<usize> = seating[0];
    let current_seating: &Vec<usize> = seating[1];
    let people: [HeatMap; 16] = seat_weights(previous_seating, current_seating);
    proof {
        if infeasible(previous_seating@, current_seating@) {
            assert forall|full: Seq<usize>| !completes(people, Seq::<usize>::empty(), full) by {
                lemma_completes_is_feasible(people, previous_seating@, current_seating@, full);
            }
        }
    }
    match draw_seating(&people, neighbours, budget) {
        Ok(found) => {
            proof {
                lemma_completes_is_feasible(
                    people,
                    previous_seating@,
                    current_seating@,
                    found@,
                );
                if is_neighbour_table(neighbours@, current_seating@)
                    && current_seating@.no_duplicates() {
                    lemma_table_rules_out_pairs(neighbours@, current_seating@, found@);
                }
            }
            *list = found;
            Ok(())
        },
        Err(e) => {
            proof {
                if e == GenerateError::Infeasible {
                    assert forall|any: Seq<usize>|
                        !feasible(previous_seating@, current_seating@, any) by {
                        lemma_completes_is_feasible(
                            people,
                            previous_seating@,
                            current_seating@,
                            any,
                        );
                    }
                }
            }
            Err(e)
        },
    }
}

/// A list of `n` different numbers below `n` holds every number below `n`.
proof fn lemma_distinct_below_covers(list: Seq<usize>, person: usize)
    requires
        list.no_duplicates(),
        forall|i: int| 0 <= i < list.len() ==> list[i] < list.len(),
        person < list.len(),
    ensures
        list.contains(person),
    decreases list.len(),
{
    let n = list.len();
    let top = (n - 1) as usize;
    if !list.contains(top) {
        let shorter = list.drop_last();
        assert forall|i: int| 0 <= i < shorter.len() implies shorter[i] < shorter.len() by {
            assert(shorter[i] == list[i]);
            assert(list.contains(list[i]));
        }
        let last = list.last();
        assert(list.contains(last));
        if n > 1 {
            lemma_distinct_below_covers(shorter, last);
            let j = choose|j: int| 0 <= j < shorter.len() && shorter[j] == last;
            assert(list[j] == list[n - 1]);
        }
    } else {
        let k = choose|k: int| 0 <= k < list.len() && list[k] == top;
        if person != top {
            let rest = list.remove(k);
            assert forall|i: int| 0 <= i < rest.len() implies rest[i] < rest.len() by {
                let i0 = if i < k { i } else { i + 1 };
                assert(rest[i] == list[i0]);
            }
            assert forall|i: int, j: int|
                0 <= i < rest.len() && 0 <= j < rest.len() && i != j implies rest[i]
                != rest[j] by {
                let i0 = if i < k { i } else { i + 1 };
                let j0 = if j < k { j } else { j + 1 };
                assert(rest[i] == list[i0]);
                assert(rest[j] == list[j0]);
            }
            lemma_distinct_below_covers(rest, person);
            let i = choose|i: int| 0 <= i < rest.len() && rest[i] == person;
            let i0 = if i < k { i } else { i + 1 };
            assert(list[i0] == person);
        }
    }
}

/// A full seating seats everybody: each person of the roster is on some
/// seat.
pub proof fn lemma_arrangement_seats_everyone(seating: Seq<usize>, person: usize)
    requires
        is_arrangement(seating),
        person < SEATS,
    ensures
        seating.contains(person),
{
    lemma_distinct_below_covers(seating, person);
}

} // verus!
