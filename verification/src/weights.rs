//! Per-person seat weights: how willing the search is to put a person on
//! each seat. A weight of zero forbids the seat outright.

use vstd::prelude::*;
use crate::layout::SEATS;

verus! {

/// One person's weight for every seat, in seat order.
#[derive(Debug, Clone, Copy)]
pub struct HeatMap {
    pub heatmap: [u32; 16],
}

impl View for HeatMap {
    type V = Seq<u32>;

    open spec fn view(&self) -> Seq<u32> {
        self.heatmap@
    }
}

impl HeatMap {
    /// The weight of seat `seat`.
    pub fn index(&self, seat: usize) -> (w: u32)
        requires
            seat < SEATS,
        ensures
            w == self@[seat as int],
    {
        self.heatmap[seat]
    }

    /// Replaces the weight of seat `seat` and leaves the others alone.
    pub fn index_mut(&mut self, seat: usize, weight: u32)
        requires
            seat < SEATS,
        ensures
            final(self)@ == old(self)@.update(seat as int, weight),
    {
        self.heatmap[seat] = weight;
    }
}

impl Default for HeatMap {
    /// Every seat open, all with the same weight of one.
    fn default() -> (r: Self)
        ensures
            r@.len() == SEATS,
            forall|s: int| 0 <= s < SEATS ==> r@[s] == 1,
    {
        HeatMap { heatmap: [1u32; 16] }
    }
}

} // verus!
