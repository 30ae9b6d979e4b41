//! The operator's working state: the record of committed seatings, the
//! seating being worked on, and the neighbour table of the last committed
//! one, kept in step with each other.

use vstd::prelude::*;
use std::collections::HashMap;
use std::collections::HashSet;
use crate::generate::{
    generate_seating,
    infeasible,
    is_arrangement,
    lemma_arrangement_seats_everyone,
    meets_rules,
    GenerateError,
};
use crate::history::{committed, copy_of, is_latest, HistoryError, HistoryStore};
use crate::layout::SEATS;
use crate::neighbours::{generate_neighbours, is_neighbour_table};
use crate::search::SEARCH_LIMIT;

verus! {

broadcast use vstd::std_specs::hash::group_hash_axioms;

/// Record, working seating and neighbour table.
pub struct Session {
    history: HistoryStore,
    list: Vec<usize>,
    neighbours: HashMap<usize, HashSet<usize>>,
}

impl Session {
    /// The committed seatings, oldest first.
    pub closed spec fn record(&self) -> Seq<Seq<usize>> {
        self.history@
    }

    /// The seating being worked on.
    pub closed spec fn working(&self) -> Seq<usize> {
        self.list@
    }

    /// At least two full seatings are on record, the working seating is
    /// full, and the neighbour table is that of the last committed seating.
    pub closed spec fn wf(&self) -> bool {
        &&& self.history.wf()
        &&& self.history@.len() >= 2
        &&& is_arrangement(self.list@)
        &&& is_neighbour_table(self.neighbours@, self.history@.last())
    }

    /// What well-formedness means for the plain state.
    pub proof fn lemma_wf(&self)
        requires
            self.wf(),
        ensures
            self.record().len() >= 2,
            forall|i: int| 0 <= i < self.record().len() ==> is_arrangement(#[trigger] self.record()[i]),
            is_arrangement(self.working()),
    {
    }

    /// Starts from a record of at least two seatings, with the last one as
    /// the working seating.
    pub fn new(history: HistoryStore) -> (r: Result<Self, HistoryError>)
        requires
            history.wf(),
        ensures
            history@.len() < 2 ==> r is Err && r->Err_0 == HistoryError::InsufficientHistory,
            history@.len() >= 2 ==> r is Ok && r->Ok_0.wf() && r->Ok_0.record() == history@
                && r->Ok_0.working() == history@.last(),
    {
        let (list, neighbours) = match history.last_two() {
            Err(e) => {
                return Err(e);
            },
            Ok((_, current)) => {
                assert(is_arrangement(history@[history@.len() - 1]));
                (copy_of(current), generate_neighbours(current.as_slice()))
            },
        };
        Ok(Session { history, list, neighbours })
    }

    /// The record.
    pub fn history(&self) -> (r: &HistoryStore)
        ensures
            r@ == self.record(),
            self.wf() ==> r.wf(),
    {
        &self.history
    }

    /// The working seating.
    pub fn list(&self) -> (r: &Vec<usize>)
        ensures
            r@ == self.working(),
    {
        &self.list
    }

    /// Commits the working seating to the record unless it is the seating
    /// committed last, and says whether the record grew. The seating stays
    /// the working one.
    pub fn write(&mut self) -> (added: bool)
        requires
            old(self).wf(),
        ensures
            final(self).wf(),
            added == !is_latest(old(self).record(), old(self).working()),
            final(self).record() == committed(old(self).record(), old(self).working()),
            final(self).working() == old(self).working(),
    {
        let added: bool = self.history.commit(&self.list);
        if added {
            self.neighbours = generate_neighbours(self.list.as_slice());
        }
        added
    }

    /// Goes back to the seating committed last and drops what was drawn
    /// since.
    pub fn reset(&mut self)
        requires
            old(self).wf(),
        ensures
            final(self).wf(),
            final(self).record() == old(self).record(),
            final(self).working() == old(self).record().last(),
    {
        match self.history.last_two() {
            Ok((_, current)) => {
                assert(is_arrangement(self.history@[self.history@.len() - 1]));
                self.list = copy_of(current);
            },
            Err(_) => {},
        }
    }

    /// Draws a new working seating that may follow the last two on record,
    /// seating at most `budget` people on the way. On failure the working
    /// seating stays as it was; `Infeasible` means that nothing meets the
    /// seat rule and the section rule against them.
    pub fn scramble(&mut self, budget: u64) -> (r: Result<(), GenerateError>)
        requires
            old(self).wf(),
        ensures
            final(self).wf(),
            final(self).record() == old(self).record(),
            match r {
                Ok(()) => meets_rules(
                    old(self).record()[old(self).record().len() - 2],
                    old(self).record().last(),
                    final(self).working(),
                ),
                Err(GenerateError::Infeasible) => {
                    &&& final(self).working() == old(self).working()
                    &&& infeasible(
                        old(self).record()[old(self).record().len() - 2],
                        old(self).record().last(),
                    )
                },
                Err(GenerateError::BudgetExhausted) => final(self).working() == old(
                    self,
                ).working(),
            },
            budget == 0 ==> r == Err::<(), GenerateError>(GenerateError::BudgetExhausted),
            budget > SEARCH_LIMIT && infeasible(
                old(self).record()[old(self).record().len() - 2],
                old(self).record().last(),
            ) ==> r == Err::<(), GenerateError>(GenerateError::Infeasible),
    {
        match self.history.last_two() {
            Ok((previous, current)) => {
                proof {
                    let n = self.history@.len() as int;
                    assert(is_arrangement(self.history@[n - 2]));
                    assert(is_arrangement(self.history@[n - 1]));
                    assert forall|p: usize| p < SEATS implies self.neighbours@.contains_key(p) by {
                        lemma_arrangement_seats_everyone(current@, p);
                    }
                }
                let pair: [&Vec<usize>; 2] = [previous, current];
                generate_seating(&mut self.list, &pair, &self.neighbours, budget)
            },
            Err(_) => Err(GenerateError::BudgetExhausted),
        }
    }
}

} // verus!
