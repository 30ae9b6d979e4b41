//! The fixed seat layout: how many seats there are, which section each seat
//! belongs to, and how seat order is mirrored for display.

use vstd::prelude::*;

verus! {

/// Number of seats, and of people on the roster.
pub const SEATS: usize = 16;

/// Number of leading seats that keep their place when the order is mirrored.
pub const KEPT: usize = 8;

/// Why a seat lookup failed.
#[derive(Clone, Copy, Debug, PartialEq, Eq, Structural)]
pub enum LayoutError {
    /// The seat index is not below `SEATS`.
    OutOfRange,
}

/// Section of every seat, in seat order: four sections, mirrored around the
/// middle of the row.
pub open spec fn section_table() -> Seq<usize> {
    seq![0usize, 0, 1, 1, 2, 2, 3, 3, 3, 3, 2, 2, 1, 1, 0, 0]
}

/// Section of seat `seat`. Meaningful for `seat < SEATS`.
pub open spec fn section_of(seat: int) -> int
    recommends
        0 <= seat < SEATS,
{
    section_table()[seat] as int
}

/// The two ends of the row meet in the same section.
pub proof fn lemma_section_mirrored(seat: int)
    requires
        0 <= seat < SEATS,
    ensures
        section_of(seat) == section_of(SEATS - 1 - seat),
        0 <= section_of(seat) < 4,
{
}

/// Section of a seat that is known to exist.
pub(crate) fn zone(seat: usize) -> (r: usize)
    requires
        seat < SEATS,
    ensures
        r == section_of(seat as int),
        r < 4,
{
    if seat < KEPT {
        seat / 2
    } else {
        (SEATS - 1 - seat) / 2
    }
}

/// Section of a seat, or `OutOfRange` for an index that names no seat.
pub fn section(value: usize) -> (r: Result<usize, LayoutError>)
    ensures
        value < SEATS ==> r == Ok::<usize, LayoutError>(section_of(value as int) as usize),
        value >= SEATS ==> r == Err::<usize, LayoutError>(LayoutError::OutOfRange),
{
    if value >= SEATS {
        Err(LayoutError::OutOfRange)
    } else {
        Ok(zone(value))
    }
}

/// A sequence with its first `KEPT` entries in place and the rest reversed.
pub open spec fn mirrored(s: Seq<usize>) -> Seq<usize> {
    Seq::new(
        s.len(),
        |i: int|
            if i < KEPT {
                s[i]
            } else {
                s[s.len() - 1 - (i - KEPT)]
            },
    )
}

/// Reorders seats for display: the first `KEPT` stay, the others follow in
/// reverse, as the far arm of the horseshoe runs back toward the front.
pub fn fliplast(list: &[usize]) -> (r: Vec<usize>)
    ensures
        r@ == mirrored(list@),
{
    let n: usize = list.len();
    let mut out: Vec<usize> = Vec::new();
    let mut i: usize = 0;
    while i < n
        invariant
            n == list@.len(),
            i <= n,
            out@.len() == i,
            forall|j: int| 0 <= j < i ==> out@[j] == mirrored(list@)[j],
        decreases n - i,
    {
        if i < KEPT {
            out.push(list[i]);
        } else {
            out.push(list[n - 1 - (i - KEPT)]);
        }
        i = i + 1;
    }
    assert(out@ =~= mirrored(list@));
    out
}

} // verus!
