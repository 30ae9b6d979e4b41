//! The randomized backtracking search: it fills the seats in order, drawing
//! each person with a chance proportional to their weight for the seat, and
//! steps back when a seat cannot be filled.

use vstd::prelude::*;
use std::collections::HashSet;
use crate::layout::SEATS;
use crate::weights::HeatMap;

verus! {

broadcast use vstd::std_specs::hash::group_hash_axioms;

/// Weight of `person` for `seat`.
pub open spec fn weight_at(people: [HeatMap; 16], person: int, seat: int) -> int {
    people@[person]@[seat] as int
}

/// A person who is neither seated yet nor ruled out for the seat at hand.
pub open spec fn is_free(placed: Seq<usize>, excluded: Set<usize>, person: int) -> bool {
    !placed.contains(person as usize) && !excluded.contains(person as usize)
}

/// What `person` contributes to a draw for `seat`: their weight while they are
/// free, nothing otherwise.
pub open spec fn draw_weight(
    people: [HeatMap; 16],
    placed: Seq<usize>,
    excluded: Set<usize>,
    seat: int,
    person: int,
) -> int {
    if is_free(placed, excluded, person) {
        weight_at(people, person, seat)
    } else {
        0
    }
}

/// Sum of the draw weights of the people below `upto`.
pub open spec fn draw_weight_below(
    people: [HeatMap; 16],
    placed: Seq<usize>,
    excluded: Set<usize>,
    seat: int,
    upto: int,
) -> int
    decreases upto,
{
    if upto <= 0 {
        0
    } else {
        draw_weight_below(people, placed, excluded, seat, upto - 1) + draw_weight(
            people,
            placed,
            excluded,
            seat,
            upto - 1,
        )
    }
}

/// Seat `seat` of `full` holds a person of the roster with a positive weight
/// for it, who sits on no earlier seat.
pub open spec fn placed_well(people: [HeatMap; 16], full: Seq<usize>, seat: int) -> bool {
    &&& full[seat] < SEATS
    &&& weight_at(people, full[seat] as int, seat) > 0
    &&& forall|j: int| 0 <= j < seat ==> full[j] != full[seat]
}

/// `full` seats all sixteen places, starts with `prefix`, and every seat
/// after the prefix is placed well.
pub open spec fn completes(people: [HeatMap; 16], prefix: Seq<usize>, full: Seq<usize>) -> bool {
    &&& prefix.len() <= SEATS
    &&& full.len() == SEATS
    &&& forall|i: int| 0 <= i < prefix.len() ==> full[i] == prefix[i]
    &&& forall|i: int| prefix.len() <= i < SEATS ==> placed_well(people, full, i)
}

/// Nothing completes `prefix`.
pub open spec fn dead_end(people: [HeatMap; 16], prefix: Seq<usize>) -> bool {
    forall|full: Seq<usize>| !completes(people, prefix, full)
}

/// Number of free people among those below `upto`.
pub open spec fn free_count(placed: Seq<usize>, excluded: Set<usize>, upto: int) -> nat
    decreases upto,
{
    if upto <= 0 {
        0
    } else {
        free_count(placed, excluded, upto - 1) + if is_free(placed, excluded, upto - 1) {
            1nat
        } else {
            0nat
        }
    }
}

/// Number of people of the roster who are not seated in `placed`.
pub open spec fn unseated(placed: Seq<usize>) -> nat {
    free_count(placed, Set::<usize>::empty(), SEATS as int)
}

/// The most steps a search can take with `free` people left to seat: each of
/// them may be tried on the next seat, and each try costs one step and a
/// search with one person fewer.
pub open spec fn search_bound(free: nat) -> nat
    decreases free,
{
    if free == 0 {
        0
    } else {
        free * (1 + search_bound((free - 1) as nat))
    }
}

/// The most steps a search from an empty row can take.
pub const SEARCH_LIMIT: u64 = 56_874_039_553_216;

/// A search from an empty row has sixteen people to seat, and its bound is
/// `SEARCH_LIMIT`.
pub proof fn lemma_search_limit()
    ensures
        unseated(Seq::<usize>::empty()) == SEATS,
        search_bound(SEATS as nat) == SEARCH_LIMIT,
{
    let nobody = Seq::<usize>::empty();
    let none = Set::<usize>::empty();
    assert forall|upto: int| 0 <= upto <= SEATS implies #[trigger] free_count(nobody, none, upto)
        == upto by {
        lemma_free_count_of_nobody(upto);
    }
    assert(search_bound(1) == 1) by {
        assert(search_bound(0) == 0);
    }
    assert(search_bound(2) == 4);
    assert(search_bound(3) == 15);
    assert(search_bound(4) == 64);
    assert(search_bound(5) == 325);
    assert(search_bound(6) == 1956);
    assert(search_bound(7) == 13699);
    assert(search_bound(8) == 109600);
    assert(search_bound(9) == 986409);
    assert(search_bound(10) == 9864100);
    assert(search_bound(11) == 108505111);
    assert(search_bound(12) == 1302061344);
    assert(search_bound(13) == 16926797485);
    assert(search_bound(14) == 236975164804);
    assert(search_bound(15) == 3554627472075);
    assert(search_bound(16) == 56874039553216);
}

proof fn lemma_free_count_of_nobody(upto: int)
    requires
        0 <= upto,
    ensures
        free_count(Seq::<usize>::empty(), Set::<usize>::empty(), upto) == upto,
    decreases upto,
{
    if upto > 0 {
        lemma_free_count_of_nobody(upto - 1);
        assert(is_free(Seq::<usize>::empty(), Set::<usize>::empty(), upto - 1));
    }
}

proof fn lemma_free_count_bounds(placed: Seq<usize>, excluded: Set<usize>, upto: int)
    requires
        0 <= upto,
    ensures
        free_count(placed, excluded, upto) <= upto,
    decreases upto,
{
    if upto > 0 {
        lemma_free_count_bounds(placed, excluded, upto - 1);
    }
}

/// Ruling out a free person leaves one free person fewer.
proof fn lemma_free_count_exclude(
    placed: Seq<usize>,
    excluded: Set<usize>,
    person: usize,
    upto: int,
)
    requires
        0 <= upto <= SEATS,
        is_free(placed, excluded, person as int),
    ensures
        free_count(placed, excluded.insert(person), upto) == free_count(placed, excluded, upto)
            - (if person < upto {
            1int
        } else {
            0int
        }),
    decreases upto,
{
    if upto > 0 {
        lemma_free_count_exclude(placed, excluded, person, upto - 1);
        let q = upto - 1;
        if q != person {
            assert(is_free(placed, excluded.insert(person), q) == is_free(placed, excluded, q));
        }
    }
}

/// Seating a person who was not seated leaves one unseated person fewer.
proof fn lemma_free_count_place(placed: Seq<usize>, person: usize, upto: int)
    requires
        0 <= upto <= SEATS,
        !placed.contains(person),
    ensures
        free_count(placed.push(person), Set::<usize>::empty(), upto) == free_count(
            placed,
            Set::<usize>::empty(),
            upto,
        ) - (if person < upto {
            1int
        } else {
            0int
        }),
    decreases upto,
{
    let none = Set::<usize>::empty();
    if upto > 0 {
        lemma_free_count_place(placed, person, upto - 1);
        let q = (upto - 1) as usize;
        let longer = placed.push(person);
        if q != person {
            if placed.contains(q) {
                let i = choose|i: int| 0 <= i < placed.len() && placed[i] == q;
                assert(longer[i] == q);
            }
            if longer.contains(q) {
                let i = choose|i: int| 0 <= i < longer.len() && longer[i] == q;
                assert(placed[i] == q);
            }
            assert(is_free(longer, none, q as int) == is_free(placed, none, q as int));
        } else {
            assert(longer[placed.len() as int] == person);
            assert(!is_free(longer, none, q as int));
        }
    }
}

/// A free person of the roster is counted.
proof fn lemma_free_person_counts(
    placed: Seq<usize>,
    excluded: Set<usize>,
    person: int,
    upto: int,
)
    requires
        0 <= person < upto,
        is_free(placed, excluded, person),
    ensures
        free_count(placed, excluded, upto) >= 1,
    decreases upto,
{
    if person < upto - 1 {
        lemma_free_person_counts(placed, excluded, person, upto - 1);
    }
}

/// With nobody counted, nobody is free.
proof fn lemma_nobody_free(placed: Seq<usize>, excluded: Set<usize>, person: int, upto: int)
    requires
        0 <= person < upto,
        free_count(placed, excluded, upto) == 0,
    ensures
        !is_free(placed, excluded, person),
{
    if is_free(placed, excluded, person) {
        lemma_free_person_counts(placed, excluded, person, upto);
    }
}

/// The bound grows with the number of people left.
proof fn lemma_search_bound_grows(fewer: nat, more: nat)
    requires
        fewer <= more,
    ensures
        search_bound(fewer) <= search_bound(more),
    decreases more,
{
    if fewer < more {
        lemma_search_bound_grows(fewer, (more - 1) as nat);
        let below = search_bound((more - 1) as nat);
        assert(more * (1 + below) >= below) by (nonlinear_arith)
            requires
                more >= 1,
                below >= 0,
        ;
    }
}

proof fn lemma_draw_weight_bounds(
    people: [HeatMap; 16],
    placed: Seq<usize>,
    excluded: Set<usize>,
    seat: int,
    upto: int,
)
    requires
        0 <= upto,
    ensures
        0 <= draw_weight_below(people, placed, excluded, seat, upto) <= upto * 0xffff_ffff,
    decreases upto,
{
    if upto > 0 {
        lemma_draw_weight_bounds(people, placed, excluded, seat, upto - 1);
    }
}

proof fn lemma_draw_weight_monotone(
    people: [HeatMap; 16],
    placed: Seq<usize>,
    excluded: Set<usize>,
    seat: int,
    from: int,
    upto: int,
)
    requires
        0 <= from <= upto,
    ensures
        draw_weight_below(people, placed, excluded, seat, from) <= draw_weight_below(
            people,
            placed,
            excluded,
            seat,
            upto,
        ),
    decreases upto,
{
    if from < upto {
        lemma_draw_weight_monotone(people, placed, excluded, seat, from, upto - 1);
    }
}

/// Ruling out a free person lowers the total by exactly their weight, once the
/// sum reaches them.
proof fn lemma_exclude(
    people: [HeatMap; 16],
    placed: Seq<usize>,
    excluded: Set<usize>,
    seat: int,
    person: usize,
    upto: int,
)
    requires
        0 <= upto <= SEATS,
        is_free(placed, excluded, person as int),
    ensures
        draw_weight_below(people, placed, excluded.insert(person), seat, upto)
            == draw_weight_below(people, placed, excluded, seat, upto) - (if person < upto {
            weight_at(people, person as int, seat)
        } else {
            0
        }),
    decreases upto,
{
    if upto > 0 {
        lemma_exclude(people, placed, excluded, seat, person, upto - 1);
        let q = upto - 1;
        if q != person {
            assert(is_free(placed, excluded.insert(person), q) == is_free(placed, excluded, q));
        }
    }
}

/// True when `value` occurs in `list`.
pub fn holds(list: &Vec<usize>, value: usize) -> (r: bool)
    ensures
        r == list@.contains(value),
{
    let mut i: usize = 0;
    while i < list.len()
        invariant
            i <= list@.len(),
            forall|j: int| 0 <= j < i ==> list@[j] != value,
        decreases list@.len() - i,
    {
        if list[i] == value {
            return true;
        }
        i = i + 1;
    }
    false
}

/// The weight that `person` brings to the draw for the next seat.
fn draw_weight_of(
    people: &[HeatMap; 16],
    placed: &Vec<usize>,
    excluded: &HashSet<usize>,
    person: usize,
) -> (w: u32)
    requires
        placed@.len() < SEATS,
        person < SEATS,
    ensures
        w == draw_weight(*people, placed@, excluded@, placed@.len() as int, person as int),
{
    if holds(placed, person) || excluded.contains(&person) {
        0
    } else {
        people[person].index(placed.len())
    }
}

/// Total weight of the people who can still be drawn for the next seat.
pub fn total_weight(people: &[HeatMap; 16], placed: &Vec<usize>, excluded: &HashSet<usize>) -> (sum:
    u64)
    requires
        placed@.len() < SEATS,
    ensures
        sum == draw_weight_below(*people, placed@, excluded@, placed@.len() as int, SEATS as int),
{
    let mut sum: u64 = 0;
    let mut person: usize = 0;
    while person < SEATS
        invariant
            person <= SEATS,
            placed@.len() < SEATS,
            sum == draw_weight_below(
                *people,
                placed@,
                excluded@,
                placed@.len() as int,
                person as int,
            ),
        decreases SEATS - person,
    {
        proof {
            lemma_draw_weight_bounds(
                *people,
                placed@,
                excluded@,
                placed@.len() as int,
                person as int,
            );
        }
        let w: u32 = draw_weight_of(people, placed, excluded, person);
        sum = sum + w as u64;
        person = person + 1;
    }
    sum
}

/// The person on whom a draw falls: the first, in roster order, at whom the
/// running total of draw weights exceeds `draw`.
pub fn pick_weighted(
    people: &[HeatMap; 16],
    placed: &Vec<usize>,
    excluded: &HashSet<usize>,
    draw: u64,
) -> (person: usize)
    requires
        placed@.len() < SEATS,
        draw < draw_weight_below(*people, placed@, excluded@, placed@.len() as int, SEATS as int),
    ensures
        person < SEATS,
        draw_weight_below(*people, placed@, excluded@, placed@.len() as int, person as int)
            <= draw,
        draw < draw_weight_below(
            *people,
            placed@,
            excluded@,
            placed@.len() as int,
            person as int + 1,
        ),
{
    let mut running: u64 = 0;
    let mut person: usize = 0;
    loop
        invariant
            person < SEATS,
            placed@.len() < SEATS,
            running == draw_weight_below(
                *people,
                placed@,
                excluded@,
                placed@.len() as int,
                person as int,
            ),
            running <= draw,
            draw < draw_weight_below(
                *people,
                placed@,
                excluded@,
                placed@.len() as int,
                SEATS as int,
            ),
        decreases SEATS - person,
    {
        proof {
            lemma_draw_weight_bounds(
                *people,
                placed@,
                excluded@,
                placed@.len() as int,
                person as int,
            );
        }
        let w: u32 = draw_weight_of(people, placed, excluded, person);
        running = running + w as u64;
        if running > draw {
            return person;
        }
        person = person + 1;
    }
}

/// A number below `bound`, drawn by `rand::Rng::gen_range` on the generator
/// that `rand::thread_rng` hands out, over the half-open range from zero to
/// `bound`. An empty range would make the call panic, so `bound` must be
/// positive. Only the range of the outcome is claimed; which number comes is
/// left to chance.
#[verifier::external_body]
fn random_below(bound: u64) -> (r: u64)
    requires
        bound > 0,
    ensures
        r < bound,
{
    rand::Rng::gen_range(&mut rand::thread_rng(), 0..bound)
}

/// A person with a positive draw weight keeps the total above zero.
proof fn lemma_positive_total(
    people: [HeatMap; 16],
    placed: Seq<usize>,
    excluded: Set<usize>,
    seat: int,
    person: int,
)
    requires
        0 <= person < SEATS,
        draw_weight(people, placed, excluded, seat, person) > 0,
    ensures
        draw_weight_below(people, placed, excluded, seat, SEATS as int) > 0,
{
    lemma_draw_weight_bounds(people, placed, excluded, seat, person);
    lemma_draw_weight_monotone(people, placed, excluded, seat, person + 1, SEATS as int);
}

/// `SEARCH_LIMIT` steps are enough for a search from any row, however many
/// seats it has filled.
pub proof fn lemma_search_limit_suffices(placed: Seq<usize>)
    ensures
        search_bound(unseated(placed)) <= SEARCH_LIMIT,
{
    lemma_search_limit();
    lemma_free_count_bounds(placed, Set::<usize>::empty(), SEATS as int);
    lemma_search_bound_grows(unseated(placed), SEATS as nat);
}

/// A positive total needs somebody free.
proof fn lemma_weight_needs_free(
    people: [HeatMap; 16],
    placed: Seq<usize>,
    excluded: Set<usize>,
    seat: int,
    upto: int,
)
    requires
        0 <= upto,
        draw_weight_below(people, placed, excluded, seat, upto) > 0,
    ensures
        free_count(placed, excluded, upto) >= 1,
    decreases upto,
{
    if upto > 0 {
        if draw_weight_below(people, placed, excluded, seat, upto - 1) > 0 {
            lemma_weight_needs_free(people, placed, excluded, seat, upto - 1);
        }
    }
}

/// Seats the people who are still missing after `current`, one seat at a
/// time. At each seat it draws among the free people by weight, tries to
/// finish from there, and on failure rules the person out for this seat and
/// draws again. It gives up on the seat once nobody with a positive weight is
/// left.
///
/// Every person seated costs one of `steps`; with none left the search stops.
/// So `None` with steps to spare means that no seating completes `current` at
/// all. A search never takes more than `search_bound` steps for the people it
/// has to seat, so with that many at hand it finds a seating whenever there
/// is one, whatever the draws.
pub fn generate_seating_from_map(
    people: &[HeatMap; 16],
    current: Vec<usize>,
    steps: &mut u64,
) -> (r: Option<Vec<usize>>)
    requires
        current@.len() <= SEATS,
    ensures
        *final(steps) <= *old(steps),
        *old(steps) - *final(steps) <= search_bound(unseated(current@)),
        match r {
            Some(full) => completes(*people, current@, full@),
            None => dead_end(*people, current@) || (*final(steps) == 0 && *old(steps)
                < search_bound(unseated(current@))),
        },
        current@.len() == SEATS ==> r is Some && r->Some_0@ == current@ && *final(steps) == *old(
            steps,
        ),
        current@.len() < SEATS && r is Some ==> *final(steps) < *old(steps),
    decreases SEATS - current@.len(),
{
    if current.len() == SEATS {
        assert(completes(*people, current@, current@));
        return Some(current);
    }
    let seat: usize = current.len();
    let ghost start: int = *steps as int;
    let ghost free: nat = unseated(current@);
    let ghost each: nat = if free >= 1 {
        1 + search_bound((free - 1) as nat)
    } else {
        1
    };
    assert(search_bound(free) == free * each);
    let mut blacklist: HashSet<usize> = HashSet::new();
    let mut sum: u64 = total_weight(people, &current, &blacklist);
    while sum > 0
        invariant
            *steps <= *old(steps),
            start == *old(steps),
            free == unseated(current@),
            each >= 1,
            free >= 1 ==> each == 1 + search_bound((free - 1) as nat),
            search_bound(free) == free * each,
            current@.len() == seat,
            seat < SEATS,
            sum == draw_weight_below(*people, current@, blacklist@, seat as int, SEATS as int),
            free_count(current@, blacklist@, SEATS as int) <= free,
            start - *steps <= (free - free_count(current@, blacklist@, SEATS as int)) * each,
            forall|p: usize| #[trigger]
                blacklist@.contains(p) ==> dead_end(*people, current@.push(p)),
        decreases sum,
    {
        let ghost left: nat = free_count(current@, blacklist@, SEATS as int);
        let ghost spent: int = start - *steps;
        proof {
            lemma_weight_needs_free(*people, current@, blacklist@, seat as int, SEATS as int);
            assert((free - left) * each <= (free - 1) * each) by (nonlinear_arith)
                requires
                    1 <= left <= free,
                    each >= 1,
            ;
            assert((free - 1) * each + each == free * each) by (nonlinear_arith);
        }
        if *steps == 0 {
            return None;
        }
        *steps = *steps - 1;
        let draw: u64 = random_below(sum);
        let ans: usize = pick_weighted(people, &current, &blacklist, draw);
        let mut next: Vec<usize> = current.clone();
        next.push(ans);
        assert(next@ == current@.push(ans));
        assert(draw_weight(*people, current@, blacklist@, seat as int, ans as int) > 0);
        proof {
            lemma_free_count_place(current@, ans, SEATS as int);
            assert(unseated(next@) == free - 1);
        }
        let ghost handed: int = *steps as int;
        let found: Option<Vec<usize>> = generate_seating_from_map(people, next, steps);
        proof {
            assert(handed - *steps <= each - 1);
            assert(start - *steps <= spent + each);
            assert((free - left) * each + each == (free - left + 1) * each) by (nonlinear_arith);
            assert((free - left + 1) * each <= free * each) by (nonlinear_arith)
                requires
                    1 <= left <= free,
                    each >= 1,
            ;
        }
        if let Some(full) = found {
            proof {
                assert(full@[seat as int] == next@[seat as int]);
                assert forall|j: int| 0 <= j < seat implies full@[j] != full@[seat as int] by {
                    assert(full@[j] == next@[j]);
                    assert(current@[j] == full@[j]);
                }
                assert(placed_well(*people, full@, seat as int));
                assert forall|i: int| 0 <= i < current@.len() implies full@[i] == current@[i] by {
                    assert(full@[i] == next@[i]);
                }
            }
            return Some(full);
        }
        if *steps == 0 {
            proof {
                if start >= search_bound(free) {
                    // Every step was needed: the person just tried was the
                    // last one free, and the search below them had all the
                    // steps it could use.
                    assert(left == 1) by (nonlinear_arith)
                        requires
                            start >= free * each,
                            start <= (free - left + 1) * each,
                            1 <= left <= free,
                            each >= 1,
                    ;
                    assert(spent <= (free - 1) * each);
                    assert(handed >= each - 1);
                    assert(dead_end(*people, next@));
                    lemma_free_count_exclude(current@, blacklist@, ans, SEATS as int);
                    lemma_dead_end(*people, current@, blacklist@.insert(ans));
                }
            }
            return None;
        }
        proof {
            lemma_exclude(*people, current@, blacklist@, seat as int, ans, SEATS as int);
            lemma_free_count_exclude(current@, blacklist@, ans, SEATS as int);
        }
        blacklist.insert(ans);
        sum = total_weight(people, &current, &blacklist);
    }
    proof {
        lemma_dead_end_by_weight(*people, current@, blacklist@);
        assert((free - free_count(current@, blacklist@, SEATS as int)) * each <= free * each)
            by (nonlinear_arith)
            requires
                0 <= free_count(current@, blacklist@, SEATS as int) <= free,
                each >= 1,
        ;
    }
    None
}

/// A row is a dead end when everybody who could take the next seat has been
/// tried in vain and nobody else is free.
proof fn lemma_dead_end(people: [HeatMap; 16], current: Seq<usize>, tried: Set<usize>)
    requires
        current.len() < SEATS,
        forall|p: usize| #[trigger] tried.contains(p) ==> dead_end(people, current.push(p)),
        free_count(current, tried, SEATS as int) == 0,
    ensures
        dead_end(people, current),
{
    let seat = current.len() as int;
    assert forall|full: Seq<usize>| !completes(people, current, full) by {
        if completes(people, current, full) {
            let p = full[seat];
            assert(placed_well(people, full, seat));
            assert(!current.contains(p)) by {
                if current.contains(p) {
                    let j = choose|j: int| 0 <= j < current.len() && current[j] == p;
                    assert(full[j] == current[j]);
                }
            }
            if tried.contains(p) {
                assert(dead_end(people, current.push(p)));
                assert(completes(people, current.push(p), full));
            } else {
                lemma_nobody_free(current, tried, p as int, SEATS as int);
            }
        }
    }
}

/// A row is a dead end when everybody who could take the next seat has been
/// tried in vain and nobody else has a weight for it.
proof fn lemma_dead_end_by_weight(people: [HeatMap; 16], current: Seq<usize>, tried: Set<usize>)
    requires
        current.len() < SEATS,
        forall|p: usize| #[trigger] tried.contains(p) ==> dead_end(people, current.push(p)),
        draw_weight_below(people, current, tried, current.len() as int, SEATS as int) == 0,
    ensures
        dead_end(people, current),
{
    let seat = current.len() as int;
    assert forall|full: Seq<usize>| !completes(people, current, full) by {
        if completes(people, current, full) {
            let p = full[seat];
            assert(placed_well(people, full, seat));
            assert(!current.contains(p)) by {
                if current.contains(p) {
                    let j = choose|j: int| 0 <= j < current.len() && current[j] == p;
                    assert(full[j] == current[j]);
                }
            }
            if tried.contains(p) {
                assert(dead_end(people, current.push(p)));
                assert(completes(people, current.push(p), full));
            } else {
                lemma_positive_total(people, current, tried, seat, p as int);
            }
        }
    }
}

} // verus!
