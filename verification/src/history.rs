//! The log of past seatings: loaded once, then only ever added to. The last
//! two entries are what a new seating is held against.

use vstd::prelude::*;
use crate::generate::{is_arrangement, on_roster};
use crate::layout::SEATS;

verus! {

/// Why the log could not answer.
#[derive(Clone, Copy, Debug, PartialEq, Eq, Structural)]
pub enum HistoryError {
    /// Fewer than two seatings are on record.
    InsufficientHistory,
}

/// What is wrong with a stored row.
#[derive(Clone, Copy, Debug, PartialEq, Eq, Structural)]
pub enum LoadError {
    /// The row does not have one entry per seat.
    WrongShape,
    /// An entry names nobody on the roster.
    OutOfRange,
    /// Somebody is seated twice.
    Repeated,
}

/// A stored row with its entries read as person indices.
pub open spec fn narrowed(row: Seq<u64>) -> Seq<usize> {
    Seq::new(row.len(), |i: int| row[i] as usize)
}

/// A seating written out as a stored row.
pub open spec fn widened(seating: Seq<usize>) -> Seq<u64> {
    Seq::new(seating.len(), |i: int| seating[i] as u64)
}

/// Every entry of the row names somebody on the roster.
pub open spec fn row_on_roster(row: Seq<u64>) -> bool {
    forall|i: int| 0 <= i < row.len() ==> row[i] < SEATS
}

/// The first thing wrong with a stored row, if anything is: its length, then
/// the range of its entries, then repeats among them.
pub open spec fn flaw(row: Seq<u64>) -> Option<LoadError> {
    if row.len() != SEATS {
        Some(LoadError::WrongShape)
    } else if !row_on_roster(row) {
        Some(LoadError::OutOfRange)
    } else if !narrowed(row).no_duplicates() {
        Some(LoadError::Repeated)
    } else {
        None
    }
}

/// What loading `rows` gives: the seatings they hold, or the flaw of the
/// first row that has one.
pub open spec fn loaded(rows: Seq<Seq<u64>>) -> Result<Seq<Seq<usize>>, LoadError>
    decreases rows.len(),
{
    if rows.len() == 0 {
        Ok(Seq::empty())
    } else {
        match loaded(rows.drop_last()) {
            Err(e) => Err(e),
            Ok(earlier) => match flaw(rows.last()) {
                Some(e) => Err(e),
                None => Ok(earlier.push(narrowed(rows.last()))),
            },
        }
    }
}

/// The rows of a list of rows, each by its entries.
pub open spec fn rows_of(rows: Seq<Vec<u64>>) -> Seq<Seq<u64>> {
    Seq::new(rows.len(), |i: int| rows[i]@)
}

/// The seatings of a list of seatings, each by its entries.
pub open spec fn seatings_of(entries: Seq<Vec<usize>>) -> Seq<Seq<usize>> {
    Seq::new(entries.len(), |i: int| entries[i]@)
}

/// True when `list` is a full seating: one entry per seat, everybody on the
/// roster, nobody twice.
pub fn is_valid(list: &Vec<usize>) -> (r: bool)
    ensures
        r == is_arrangement(list@),
{
    if list.len() != SEATS {
        return false;
    }
    let mut seen: [bool; 16] = [false;16];
    let mut k: usize = 0;
    while k < SEATS
        invariant
            k <= SEATS,
            list@.len() == SEATS,
            forall|i: int| 0 <= i < k ==> list@[i] < SEATS,
            forall|i: int, j: int| 0 <= i < j < k ==> list@[i] != list@[j],
            forall|p: int|
                0 <= p < SEATS ==> (#[trigger] seen@[p] <==> exists|i: int|
                    0 <= i < k && list@[i] == p),
        decreases SEATS - k,
    {
        let person: usize = list[k];
        if person >= SEATS {
            assert(!on_roster(list@));
            return false;
        }
        if seen[person] {
            proof {
                let i = choose|i: int| 0 <= i < k && list@[i] == person;
                assert(list@[i] == list@[k as int] && i != k);
            }
            return false;
        }
        let ghost before = seen@;
        seen[person] = true;
        assert forall|p: int| 0 <= p < SEATS implies (#[trigger] seen@[p] <==> exists|i: int|
            0 <= i < k + 1 && list@[i] == p) by {
            if p == person {
                assert(list@[k as int] == p);
            } else {
                assert(seen@[p] == before[p]);
                if before[p] {
                    let i = choose|i: int| 0 <= i < k && list@[i] == p;
                    assert(0 <= i < k + 1 && list@[i] == p);
                }
            }
        }
        k = k + 1;
    }
    true
}

/// Reads one stored row as a seating, or says what is wrong with it.
pub fn read_row(row: &Vec<u64>) -> (r: Result<Vec<usize>, LoadError>)
    ensures
        match r {
            Ok(seating) => flaw(row@) is None && seating@ == narrowed(row@) && is_arrangement(
                seating@,
            ),
            Err(e) => flaw(row@) == Some(e),
        },
{
    if row.len() != SEATS {
        return Err(LoadError::WrongShape);
    }
    let mut seating: Vec<usize> = Vec::new();
    let mut k: usize = 0;
    while k < SEATS
        invariant
            k <= SEATS,
            row@.len() == SEATS,
            seating@.len() == k,
            forall|i: int| 0 <= i < k ==> #[trigger] row@[i] < SEATS,
            forall|i: int| 0 <= i < k ==> #[trigger] seating@[i] == row@[i] as usize,
        decreases SEATS - k,
    {
        let entry: u64 = row[k];
        if entry >= 16 {
            assert(!row_on_roster(row@));
            return Err(LoadError::OutOfRange);
        }
        seating.push(entry as usize);
        k = k + 1;
    }
    assert(seating@ =~= narrowed(row@));
    assert(row_on_roster(row@));
    assert(on_roster(seating@));
    if is_valid(&seating) {
        Ok(seating)
    } else {
        Err(LoadError::Repeated)
    }
}

/// The seatings on record, oldest first.
pub struct HistoryStore {
    entries: Vec<Vec<usize>>,
}

impl View for HistoryStore {
    type V = Seq<Seq<usize>>;

    closed spec fn view(&self) -> Seq<Seq<usize>> {
        seatings_of(self.entries@)
    }
}

impl HistoryStore {
    /// Every entry on record is a full seating.
    pub open spec fn wf(&self) -> bool {
        forall|i: int| 0 <= i < self@.len() ==> is_arrangement(#[trigger] self@[i])
    }

    /// A log with nothing on record.
    pub fn new() -> (store: Self)
        ensures
            store@ == Seq::<Seq<usize>>::empty(),
            store.wf(),
    {
        let store = HistoryStore { entries: Vec::new() };
        assert(store@ =~= Seq::<Seq<usize>>::empty());
        store
    }

    /// Builds the log from stored rows, oldest first. Every row must be a
    /// full seating; the first one that is not decides the error.
    pub fn load(rows: &Vec<Vec<u64>>) -> (r: Result<Self, LoadError>)
        ensures
            match r {
                Ok(store) => loaded(rows_of(rows@)) == Ok::<Seq<Seq<usize>>, LoadError>(store@)
                    && store.wf(),
                Err(e) => loaded(rows_of(rows@)) == Err::<Seq<Seq<usize>>, LoadError>(e),
            },
    {
        let mut entries: Vec<Vec<usize>> = Vec::new();
        let mut k: usize = 0;
        assert(rows_of(rows@).take(0) =~= Seq::<Seq<u64>>::empty());
        assert(seatings_of(entries@) =~= Seq::<Seq<usize>>::empty());
        while k < rows.len()
            invariant
                k <= rows@.len(),
                loaded(rows_of(rows@).take(k as int)) == Ok::<Seq<Seq<usize>>, LoadError>(
                    seatings_of(entries@),
                ),
                forall|i: int|
                    0 <= i < entries@.len() ==> is_arrangement(#[trigger] seatings_of(entries@)[i]),
            decreases rows@.len() - k,
        {
            let ghost upto = rows_of(rows@).take(k + 1);
            assert(upto.drop_last() =~= rows_of(rows@).take(k as int));
            assert(upto.last() == rows@[k as int]@);
            match read_row(&rows[k]) {
                Err(e) => {
                    proof {
                        lemma_loaded_stays_failed(rows_of(rows@), k + 1);
                    }
                    return Err(e);
                },
                Ok(seating) => {
                    let ghost before = seatings_of(entries@);
                    entries.push(seating);
                    assert(seatings_of(entries@) =~= before.push(seating@));
                },
            }
            k = k + 1;
        }
        assert(rows_of(rows@).take(k as int) =~= rows_of(rows@));
        Ok(HistoryStore { entries })
    }

    /// Number of seatings on record.
    pub fn len(&self) -> (n: usize)
        ensures
            n == self@.len(),
    {
        self.entries.len()
    }

    /// The two most recent seatings: the one before last, then the last.
    pub fn last_two(&self) -> (r: Result<(&Vec<usize>, &Vec<usize>), HistoryError>)
        ensures
            self@.len() < 2 ==> r == Err::<(&Vec<usize>, &Vec<usize>), HistoryError>(
                HistoryError::InsufficientHistory,
            ),
            self@.len() >= 2 ==> r is Ok && r->Ok_0.0@ == self@[self@.len() - 2] && r->Ok_0.1@
                == self@[self@.len() - 1],
    {
        let n: usize = self.entries.len();
        if n < 2 {
            Err(HistoryError::InsufficientHistory)
        } else {
            Ok((&self.entries[n - 2], &self.entries[n - 1]))
        }
    }

    /// Puts a seating on record as the most recent one. Whether it meets the
    /// rules against the earlier ones is not looked at here.
    pub fn append(&mut self, arrangement: Vec<usize>)
        requires
            old(self).wf(),
            is_arrangement(arrangement@),
        ensures
            final(self)@ == old(self)@.push(arrangement@),
            final(self).wf(),
    {
        let ghost before = self@;
        self.entries.push(arrangement);
        assert(self@ =~= before.push(arrangement@));
    }

    /// Commits the working seating: puts it on record unless it already is
    /// the most recent entry. Says whether anything was added.
    pub fn commit(&mut self, list: &Vec<usize>) -> (added: bool)
        requires
            old(self).wf(),
            is_arrangement(list@),
        ensures
            added == !is_latest(old(self)@, list@),
            final(self)@ == committed(old(self)@, list@),
            final(self).wf(),
    {
        let n: usize = self.entries.len();
        if n > 0 && same_seating(&self.entries[n - 1], list) {
            false
        } else {
            self.append(copy_of(list));
            true
        }
    }

    /// A copy of everything on record, oldest first.
    pub fn snapshot(&self) -> (rows: Vec<Vec<usize>>)
        ensures
            seatings_of(rows@) == self@,
    {
        let mut rows: Vec<Vec<usize>> = Vec::new();
        let mut k: usize = 0;
        while k < self.entries.len()
            invariant
                k <= self.entries@.len(),
                rows@.len() == k,
                forall|i: int| 0 <= i < k ==> (#[trigger] rows@[i])@ == self.entries@[i]@,
            decreases self.entries@.len() - k,
        {
            rows.push(copy_of(&self.entries[k]));
            k = k + 1;
        }
        assert(seatings_of(rows@) =~= self@);
        rows
    }
}

/// `list` is the most recent entry of `history`.
pub open spec fn is_latest(history: Seq<Seq<usize>>, list: Seq<usize>) -> bool {
    history.len() > 0 && history.last() == list
}

/// The record after `list` has been committed to `history`.
pub open spec fn committed(history: Seq<Seq<usize>>, list: Seq<usize>) -> Seq<Seq<usize>> {
    if is_latest(history, list) {
        history
    } else {
        history.push(list)
    }
}

/// Committing the same seating a second time adds nothing.
pub proof fn lemma_commit_twice(history: Seq<Seq<usize>>, list: Seq<usize>)
    ensures
        is_latest(committed(history, list), list),
        committed(committed(history, list), list) == committed(history, list),
{
}

/// Once a row has failed, the rows after it change nothing.
proof fn lemma_loaded_stays_failed(rows: Seq<Seq<u64>>, upto: int)
    requires
        0 <= upto <= rows.len(),
        loaded(rows.take(upto)) is Err,
    ensures
        loaded(rows) == loaded(rows.take(upto)),
    decreases rows.len() - upto,
{
    if upto < rows.len() {
        let next = rows.take(upto + 1);
        assert(next.drop_last() =~= rows.take(upto));
        lemma_loaded_stays_failed(rows, upto + 1);
    } else {
        assert(rows.take(upto) =~= rows);
    }
}

/// What was saved is what loads: the rows written for a log of full seatings
/// load without error, as the same seatings in the same order.
pub proof fn lemma_saved_history_loads(history: Seq<Seq<usize>>)
    requires
        forall|i: int| 0 <= i < history.len() ==> is_arrangement(#[trigger] history[i]),
    ensures
        loaded(history.map_values(|s: Seq<usize>| widened(s))) == Ok::<
            Seq<Seq<usize>>,
            LoadError,
        >(history),
    decreases history.len(),
{
    let rows = history.map_values(|s: Seq<usize>| widened(s));
    if history.len() > 0 {
        let shorter = history.drop_last();
        assert(rows.drop_last() =~= shorter.map_values(|s: Seq<usize>| widened(s)));
        lemma_saved_history_loads(shorter);
        let last = history.last();
        assert(is_arrangement(last));
        assert(rows.last() == widened(last));
        assert(narrowed(widened(last)) =~= last);
        assert(row_on_roster(widened(last)));
        assert(shorter.push(last) =~= history);
    } else {
        assert(history =~= Seq::<Seq<usize>>::empty());
    }
}

/// True when the two lists hold the same entries in the same order.
fn same_seating(a: &Vec<usize>, b: &Vec<usize>) -> (r: bool)
    ensures
        r == (a@ == b@),
{
    if a.len() != b.len() {
        return false;
    }
    let mut k: usize = 0;
    while k < a.len()
        invariant
            k <= a@.len(),
            a@.len() == b@.len(),
            forall|i: int| 0 <= i < k ==> a@[i] == b@[i],
        decreases a@.len() - k,
    {
        if a[k] != b[k] {
            return false;
        }
        k = k + 1;
    }
    assert(a@ =~= b@);
    true
}

/// A fresh list with the entries of `list`.
pub(crate) fn copy_of(list: &Vec<usize>) -> (copy: Vec<usize>)
    ensures
        copy@ == list@,
{
    let mut copy: Vec<usize> = Vec::new();
    let mut k: usize = 0;
    while k < list.len()
        invariant
            k <= list@.len(),
            copy@ == list@.take(k as int),
        decreases list@.len() - k,
    {
        copy.push(list[k]);
        assert(list@.take(k + 1) =~= list@.take(k as int).push(list@[k as int]));
        k = k + 1;
    }
    assert(list@.take(k as int) =~= list@);
    copy
}

} // verus!
