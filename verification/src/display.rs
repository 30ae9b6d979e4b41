//! From a seating to what viewers see: seats in mirrored order, each person
//! by name, blank entries where the walkways cut through the row, and the
//! whole joined into one line of text.

use vstd::prelude::*;
use vstd::string::*;
use crate::layout::{fliplast, mirrored};

verus! {

/// Place of the first blank entry in a displayed row.
pub const FIRST_GAP: usize = 2;

/// Place of the second blank entry, counted with the first one in place.
pub const SECOND_GAP: usize = 8;

/// Why a seating could not be displayed.
#[derive(Clone, Copy, Debug, PartialEq, Eq, Structural)]
pub enum DisplayError {
    /// A person index does not name anyone on the roster.
    RosterIndexOutOfRange,
}

/// The text of every entry of a row of strings.
pub open spec fn shown(row: Seq<String>) -> Seq<Seq<char>> {
    Seq::new(row.len(), |i: int| row[i]@)
}

/// The names of the listed people, in the order listed.
pub open spec fn named(indices: Seq<usize>, names: Seq<&str>) -> Seq<Seq<char>> {
    Seq::new(indices.len(), |i: int| names[indices[i] as int]@)
}

/// A row with the two blank entries put in.
pub open spec fn with_gaps(row: Seq<Seq<char>>) -> Seq<Seq<char>> {
    row.insert(FIRST_GAP as int, Seq::<char>::empty()).insert(
        SECOND_GAP as int,
        Seq::<char>::empty(),
    )
}

/// Every listed person is on a roster of `roster` names.
pub open spec fn all_named(indices: Seq<usize>, roster: nat) -> bool {
    forall|i: int| 0 <= i < indices.len() ==> indices[i] < roster
}

/// What viewers are shown for a seating: its seats mirrored, named, and
/// spaced by the two gaps.
pub open spec fn display_of(arrangement: Seq<usize>, names: Seq<&str>) -> Seq<Seq<char>> {
    with_gaps(named(mirrored(arrangement), names))
}

/// Names the listed people and puts in the two blank entries. Fails when an
/// index names nobody. The list must be long enough to hold both gaps.
pub fn mapnames(indicies: &[usize], names: &[&str]) -> (r: Result<Vec<String>, DisplayError>)
    requires
        indicies@.len() + 1 >= SECOND_GAP,
    ensures
        all_named(indicies@, names@.len()) ==> r is Ok && shown(r->Ok_0@) == with_gaps(
            named(indicies@, names@),
        ),
        !all_named(indicies@, names@.len()) ==> r == Err::<Vec<String>, DisplayError>(
            DisplayError::RosterIndexOutOfRange,
        ),
        r is Ok ==> r->Ok_0@.len() == indicies@.len() + 2,
{
    let mut ret: Vec<String> = Vec::new();
    let mut k: usize = 0;
    while k < indicies.len()
        invariant
            k <= indicies@.len(),
            ret@.len() == k,
            forall|i: int| 0 <= i < k ==> indicies@[i] < names@.len(),
            forall|i: int| 0 <= i < k ==> (#[trigger] ret@[i])@ == names@[indicies@[i] as int]@,
        decreases indicies@.len() - k,
    {
        let i: usize = indicies[k];
        if i >= names.len() {
            return Err(DisplayError::RosterIndexOutOfRange);
        }
        ret.push(names[i].to_owned());
        k = k + 1;
    }
    let ghost plain = ret@;
    assert(shown(plain) =~= named(indicies@, names@));
    ret.insert(FIRST_GAP, String::new());
    let ghost once = ret@;
    assert(shown(once) =~= shown(plain).insert(FIRST_GAP as int, Seq::<char>::empty()));
    ret.insert(SECOND_GAP, String::new());
    assert(shown(ret@) =~= shown(once).insert(SECOND_GAP as int, Seq::<char>::empty()));
    Ok(ret)
}

/// The row shown for a seating: `mapnames` of its mirrored order.
pub fn to_display(arrangement: &[usize], roster: &[&str]) -> (r: Result<
    Vec<String>,
    DisplayError,
>)
    requires
        arrangement@.len() + 1 >= SECOND_GAP,
    ensures
        all_named(arrangement@, roster@.len()) ==> r is Ok && shown(r->Ok_0@) == display_of(
            arrangement@,
            roster@,
        ),
        !all_named(arrangement@, roster@.len()) ==> r == Err::<Vec<String>, DisplayError>(
            DisplayError::RosterIndexOutOfRange,
        ),
        r is Ok ==> r->Ok_0@.len() == arrangement@.len() + 2,
{
    let order: Vec<usize> = fliplast(arrangement);
    proof {
        lemma_mirrored_keeps_people(arrangement@, roster@.len());
    }
    mapnames(order.as_slice(), roster)
}

/// Mirroring moves people around and neither adds nor loses anyone: the
/// mirrored order is on the roster exactly when the seating is.
pub proof fn lemma_mirrored_keeps_people(arrangement: Seq<usize>, roster: nat)
    ensures
        mirrored(arrangement).len() == arrangement.len(),
        all_named(mirrored(arrangement), roster) == all_named(arrangement, roster),
{
    let m = mirrored(arrangement);
    let n = arrangement.len() as int;
    if all_named(arrangement, roster) {
        assert(all_named(m, roster));
    }
    if all_named(m, roster) {
        assert forall|i: int| 0 <= i < n implies arrangement[i] < roster by {
            if i < 8 {
                assert(m[i] == arrangement[i]);
            } else {
                let k = n - 1 - i + 8;
                assert(m[k] == arrangement[i]);
            }
        }
    }
}

/// Two displays of the same seating against the same roster show the same
/// row, and the row has two entries more than the seating has seats.
pub proof fn lemma_display_repeatable(
    arrangement: Seq<usize>,
    names: Seq<&str>,
    first: Seq<String>,
    second: Seq<String>,
)
    requires
        arrangement.len() + 1 >= SECOND_GAP,
        shown(first) == display_of(arrangement, names),
        shown(second) == display_of(arrangement, names),
    ensures
        shown(first) == shown(second),
        first.len() == arrangement.len() + 2,
        second.len() == first.len(),
        forall|i: int| 0 <= i < first.len() ==> first[i]@ == second[i]@,
{
    let row = named(mirrored(arrangement), names);
    let once = row.insert(FIRST_GAP as int, Seq::<char>::empty());
    row.insert_ensures(FIRST_GAP as int, Seq::<char>::empty());
    once.insert_ensures(SECOND_GAP as int, Seq::<char>::empty());
    assert(shown(first).len() == first.len());
    assert(shown(second).len() == second.len());
    assert forall|i: int| 0 <= i < first.len() implies first[i]@ == second[i]@ by {
        assert(shown(first)[i] == first[i]@);
        assert(shown(second)[i] == second[i]@);
    }
}

/// The entries of a row joined into one text, with `sep` between each two.
pub open spec fn joined(row: Seq<Seq<char>>, sep: Seq<char>) -> Seq<char>
    decreases row.len(),
{
    if row.len() == 0 {
        Seq::<char>::empty()
    } else if row.len() == 1 {
        row[0]
    } else {
        joined(row.drop_last(), sep) + sep + row.last()
    }
}

/// The line of text sent to a viewer for a row: its entries, blanks
/// included, joined by commas.
pub fn frame(row: &Vec<String>) -> (line: String)
    ensures
        line@ == joined(shown(row@), ","@),
{
    let mut line: String = String::new();
    let mut k: usize = 0;
    while k < row.len()
        invariant
            k <= row@.len(),
            line@ == joined(shown(row@).take(k as int), ","@),
        decreases row@.len() - k,
    {
        let ghost before = shown(row@).take(k as int);
        let ghost after = shown(row@).take(k + 1);
        assert(after.drop_last() =~= before);
        assert(after.last() == row@[k as int]@);
        if k > 0 {
            line.append(",");
        } else {
            assert(line@ + row@[k as int]@ =~= row@[k as int]@);
        }
        line.append(row[k].as_str());
        k = k + 1;
    }
    assert(shown(row@).take(k as int) =~= shown(row@));
    line
}

} // verus!
