//! Who sat next to whom: the neighbour table of a seating, keyed by person.

use vstd::prelude::*;
use std::collections::HashMap;
use std::collections::HashSet;

verus! {

broadcast use vstd::std_specs::hash::group_hash_axioms;

/// The people on the one or two seats next to `seat`.
pub open spec fn beside(seating: Seq<usize>, seat: int) -> Set<usize> {
    Set::new(
        |p: usize|
            (0 < seat && seating[seat - 1] == p) || (seat + 1 < seating.len() && seating[seat + 1]
                == p),
    )
}

/// The turn at which the table entry for `seat` is written: the first seat,
/// then the last, then the seats in between in order.
pub open spec fn turn(seats: int, seat: int) -> int {
    if seat == 0 {
        0
    } else if seat == seats - 1 {
        1
    } else {
        seat + 1
    }
}

/// `seat` is the seat of its occupant whose entry is written last, so the one
/// that the table keeps. In a seating without repeats every seat is.
pub open spec fn decides(seating: Seq<usize>, seat: int) -> bool {
    forall|other: int|
        0 <= other < seating.len() && #[trigger] seating[other] == seating[seat] ==> turn(
            seating.len() as int,
            other,
        ) <= turn(seating.len() as int, seat)
}

/// `table` is the neighbour table of `seating`: it has an entry for each
/// person seated and for nobody else, and each entry holds the people beside
/// the seat that decides for that person.
pub open spec fn is_neighbour_table(
    table: Map<usize, HashSet<usize>>,
    seating: Seq<usize>,
) -> bool {
    &&& forall|p: usize| table.contains_key(p) <==> seating.contains(p)
    &&& forall|seat: int|
        0 <= seat < seating.len() && decides(seating, seat) ==> (#[trigger] table[seating[seat]])@
            == beside(seating, seat)
}

/// Entries written so far, when the seats in between have been handled up to
/// `done` (exclusive).
spec fn written(seats: int, done: int, seat: int) -> bool {
    seat == 0 || seat == seats - 1 || (1 <= seat < done)
}

/// Among the seats written so far, `seat` is the last one of its occupant.
spec fn decides_so_far(seating: Seq<usize>, done: int, seat: int) -> bool {
    forall|other: int|
        0 <= other < seating.len() && written(seating.len() as int, done, other)
            && #[trigger] seating[other] == seating[seat] ==> turn(seating.len() as int, other)
            <= turn(seating.len() as int, seat)
}

spec fn table_so_far(table: Map<usize, HashSet<usize>>, seating: Seq<usize>, done: int) -> bool {
    &&& forall|p: usize|
        table.contains_key(p) <==> exists|seat: int|
            0 <= seat < seating.len() && written(seating.len() as int, done, seat)
                && #[trigger] seating[seat] == p
    &&& forall|seat: int|
        0 <= seat < seating.len() && written(seating.len() as int, done, seat) && decides_so_far(
            seating,
            done,
            seat,
        ) ==> (#[trigger] table[seating[seat]])@ == beside(seating, seat)
}

/// The people next to `seat_index`: one for a seat at an end of the row, two
/// for a seat in between, nobody for a seat that is alone.
pub fn neighbors_of(arrangement: &[usize], seat_index: usize) -> (people: HashSet<usize>)
    requires
        seat_index < arrangement@.len(),
    ensures
        people@ == beside(arrangement@, seat_index as int),
{
    let mut people: HashSet<usize> = HashSet::new();
    if seat_index > 0 {
        people.insert(arrangement[seat_index - 1]);
    }
    if seat_index + 1 < arrangement.len() {
        people.insert(arrangement[seat_index + 1]);
    }
    assert(people@ =~= beside(arrangement@, seat_index as int));
    people
}

/// Builds the neighbour table of a seating of at least two seats.
pub fn generate_neighbours(seating: &[usize]) -> (neighbours: HashMap<usize, HashSet<usize>>)
    requires
        seating@.len() >= 2,
    ensures
        is_neighbour_table(neighbours@, seating@),
{
    let n: usize = seating.len();
    let ghost s = seating@;
    let mut neighbours: HashMap<usize, HashSet<usize>> = HashMap::new();
    neighbours.insert(seating[0], neighbors_of(seating, 0));
    neighbours.insert(seating[n - 1], neighbors_of(seating, n - 1));
    proof {
        assert(table_so_far(neighbours@, s, 1)) by {
            assert forall|p: usize| neighbours@.contains_key(p) implies exists|seat: int|
                0 <= seat < s.len() && written(s.len() as int, 1, seat) && #[trigger] s[seat]
                    == p by {
                if p == s[n - 1] {
                    assert(s[n - 1] == p);
                } else {
                    assert(s[0] == p);
                }
            }
            assert forall|seat: int|
                0 <= seat < s.len() && written(s.len() as int, 1, seat) && decides_so_far(
                    s,
                    1,
                    seat,
                ) implies (#[trigger] neighbours@[s[seat]])@ == beside(s, seat) by {
                if seat == 0 && n > 1 {
                    if s[n - 1] == s[0] {
                        assert(written(s.len() as int, 1, n - 1));
                        assert(s[n - 1] == s[seat]);
                    }
                }
            }
        }
    }
    let mut i: usize = 1;
    while i + 1 < n
        invariant
            s == seating@,
            n == s.len(),
            n >= 2,
            1 <= i <= n - 1,
            table_so_far(neighbours@, s, i as int),
        decreases n - i,
    {
        let ghost before = neighbours@;
        neighbours.insert(seating[i], neighbors_of(seating, i));
        proof {
            let after = neighbours@;
            assert forall|p: usize| after.contains_key(p) implies exists|seat: int|
                0 <= seat < s.len() && written(s.len() as int, i + 1, seat) && #[trigger] s[seat]
                    == p by {
                if p == s[i as int] {
                    assert(s[i as int] == p);
                } else {
                    assert(before.contains_key(p));
                    let seat = choose|seat: int|
                        0 <= seat < s.len() && written(s.len() as int, i as int, seat)
                            && #[trigger] s[seat] == p;
                    assert(written(s.len() as int, i + 1, seat) && s[seat] == p);
                }
            }
            assert forall|p: usize|
                (exists|seat: int|
                    0 <= seat < s.len() && written(s.len() as int, i + 1, seat)
                        && #[trigger] s[seat] == p) implies after.contains_key(p) by {
                let seat = choose|seat: int|
                    0 <= seat < s.len() && written(s.len() as int, i + 1, seat)
                        && #[trigger] s[seat] == p;
                if seat != i {
                    assert(written(s.len() as int, i as int, seat) && s[seat] == p);
                }
            }
            assert forall|seat: int|
                0 <= seat < s.len() && written(s.len() as int, i + 1, seat) && decides_so_far(
                    s,
                    i + 1,
                    seat,
                ) implies (#[trigger] after[s[seat]])@ == beside(s, seat) by {
                if seat != i {
                    if s[seat] == s[i as int] {
                        assert(written(s.len() as int, i + 1, i as int));
                        assert(s[i as int] == s[seat]);
                        assert(turn(s.len() as int, i as int) <= turn(s.len() as int, seat));
                    } else {
                        assert(decides_so_far(s, i as int, seat));
                    }
                }
            }
        }
        i = i + 1;
    }
    proof {
        let table = neighbours@;
        assert forall|p: usize| table.contains_key(p) <==> s.contains(p) by {
            if table.contains_key(p) {
                let seat = choose|seat: int|
                    0 <= seat < s.len() && written(s.len() as int, i as int, seat)
                        && #[trigger] s[seat] == p;
                assert(s[seat] == p);
            }
            if s.contains(p) {
                let seat = choose|seat: int| 0 <= seat < s.len() && s[seat] == p;
                assert(written(s.len() as int, i as int, seat) && s[seat] == p);
            }
        }
        assert forall|seat: int| 0 <= seat < s.len() && decides(s, seat) implies (
        #[trigger] table[s[seat]])@ == beside(s, seat) by {
            assert(written(s.len() as int, i as int, seat));
            assert(decides_so_far(s, i as int, seat));
        }
    }
    neighbours
}

} // verus!
