//! The hub between the one publisher and its viewers. It keeps the row that
//! is current and, for every subscriber, a bounded queue of the rows
//! published since they last looked. A subscriber who falls behind loses
//! their oldest rows, never the order of the rest.

use vstd::prelude::*;
use std::collections::VecDeque;
use crate::display::shown;

verus! {

/// A row as viewers see it: the text of each entry.
pub type Row = Seq<Seq<char>>;

/// What the hub holds, as plain values.
pub struct HubState {
    /// The row published last, or the one the hub was made with.
    pub current: Row,
    /// How many rows a subscriber's queue can hold.
    pub capacity: nat,
    /// How many handles have been given out so far.
    pub issued: nat,
    /// For each subscriber, by handle, the rows still waiting, oldest first.
    pub pending: Map<u64, Seq<Row>>,
}

/// A queue after one more row has arrived: the row goes to the end, and a
/// queue that was full loses its oldest row to make room.
pub open spec fn pushed(queue: Seq<Row>, row: Row, capacity: nat) -> Seq<Row> {
    if queue.len() < capacity {
        queue.push(row)
    } else {
        queue.drop_first().push(row)
    }
}

/// The hub after `row` is published: it is current, and every subscriber
/// has it at the end of their queue.
pub open spec fn published(state: HubState, row: Row) -> HubState {
    HubState {
        current: row,
        capacity: state.capacity,
        issued: state.issued,
        pending: Map::new(
            |h: u64| state.pending.contains_key(h),
            |h: u64| pushed(state.pending[h], row, state.capacity),
        ),
    }
}

/// The hub after one more subscriber has joined, under the next handle and
/// with nothing waiting.
pub open spec fn entered(state: HubState) -> HubState {
    HubState {
        current: state.current,
        capacity: state.capacity,
        issued: state.issued + 1,
        pending: state.pending.insert(state.issued as u64, Seq::<Row>::empty()),
    }
}

/// The hub after the subscriber `handle` has left.
pub open spec fn left(state: HubState, handle: u64) -> HubState {
    HubState {
        current: state.current,
        capacity: state.capacity,
        issued: state.issued,
        pending: state.pending.remove(handle),
    }
}

/// The hub after the subscriber `handle` has taken their oldest row.
pub open spec fn taken(state: HubState, handle: u64) -> HubState {
    HubState {
        current: state.current,
        capacity: state.capacity,
        issued: state.issued,
        pending: state.pending.insert(handle, state.pending[handle].drop_first()),
    }
}

/// The rows of a queue, each by the text of its entries.
pub open spec fn rows_of(queue: Seq<Vec<String>>) -> Seq<Row> {
    Seq::new(queue.len(), |i: int| shown(queue[i]@))
}

/// One subscriber: the handle and the rows that wait for them.
pub struct Subscriber {
    id: u64,
    queue: VecDeque<Vec<String>>,
}

/// The current row and the subscribers' queues.
pub struct BroadcastHub {
    current: Vec<String>,
    capacity: usize,
    issued: u64,
    subscribers: Vec<Subscriber>,
}

spec fn listed(subs: Seq<Subscriber>, handle: u64) -> bool {
    exists|i: int| 0 <= i < subs.len() && (#[trigger] subs[i]).id == handle
}

spec fn slot(subs: Seq<Subscriber>, handle: u64) -> int {
    choose|i: int| 0 <= i < subs.len() && (#[trigger] subs[i]).id == handle
}

spec fn distinct(subs: Seq<Subscriber>) -> bool {
    forall|i: int, j: int|
        0 <= i < subs.len() && 0 <= j < subs.len() && i != j ==> (#[trigger] subs[i]).id != (
        #[trigger] subs[j]).id
}

spec fn queues(subs: Seq<Subscriber>) -> Map<u64, Seq<Row>> {
    Map::new(|h: u64| listed(subs, h), |h: u64| rows_of(subs[slot(subs, h)].queue@))
}

proof fn lemma_slot(subs: Seq<Subscriber>, i: int)
    requires
        distinct(subs),
        0 <= i < subs.len(),
    ensures
        listed(subs, subs[i].id),
        slot(subs, subs[i].id) == i,
        queues(subs)[subs[i].id] == rows_of(subs[i].queue@),
{
}

impl View for BroadcastHub {
    type V = HubState;

    closed spec fn view(&self) -> HubState {
        HubState {
            current: shown(self.current@),
            capacity: self.capacity as nat,
            issued: self.issued as nat,
            pending: queues(self.subscribers@),
        }
    }
}

/// A fresh row with the entries of `row`.
pub fn copy_row(row: &Vec<String>) -> (copy: Vec<String>)
    ensures
        shown(copy@) == shown(row@),
        copy@.len() == row@.len(),
{
    let mut copy: Vec<String> = Vec::new();
    let mut k: usize = 0;
    while k < row.len()
        invariant
            k <= row@.len(),
            copy@.len() == k,
            forall|i: int| 0 <= i < k ==> (#[trigger] copy@[i])@ == row@[i]@,
        decreases row@.len() - k,
    {
        copy.push(row[k].clone());
        k = k + 1;
    }
    assert(shown(copy@) =~= shown(row@));
    copy
}

impl BroadcastHub {
    /// The hub keeps its promises to itself: handles are given out once, in
    /// order, and no queue is longer than the capacity.
    pub closed spec fn wf(&self) -> bool {
        &&& self.capacity > 0
        &&& distinct(self.subscribers@)
        &&& forall|i: int|
            0 <= i < self.subscribers@.len() ==> (#[trigger] self.subscribers@[i]).id < self.issued
        &&& forall|i: int|
            0 <= i < self.subscribers@.len() ==> (#[trigger] self.subscribers@[i]).queue@.len()
                <= self.capacity
    }

    /// What well-formedness means for the plain state: a positive capacity,
    /// every subscriber's handle among those given out, and no queue over
    /// the capacity.
    pub proof fn lemma_wf(&self)
        requires
            self.wf(),
        ensures
            self@.capacity > 0,
            self@.issued <= u64::MAX,
            forall|h: u64| #[trigger]
                self@.pending.contains_key(h) ==> h < self@.issued && self@.pending[h].len()
                    <= self@.capacity,
    {
        assert forall|h: u64| #[trigger] self@.pending.contains_key(h) implies h < self@.issued
            && self@.pending[h].len() <= self@.capacity by {
            let i = slot(self.subscribers@, h);
            assert(self.subscribers@[i].id == h);
        }
    }

    /// A hub that shows `initial`, has no subscriber yet, and will hold up
    /// to `capacity` rows for each one.
    pub fn new(initial: Vec<String>, capacity: usize) -> (hub: Self)
        requires
            capacity > 0,
        ensures
            hub.wf(),
            hub@ == (HubState {
                current: shown(initial@),
                capacity: capacity as nat,
                issued: 0,
                pending: Map::<u64, Seq<Row>>::empty(),
            }),
    {
        let hub = BroadcastHub { current: initial, capacity, issued: 0, subscribers: Vec::new() };
        assert(hub@.pending =~= Map::<u64, Seq<Row>>::empty());
        hub
    }

    /// True while another handle can still be given out.
    pub fn has_room(&self) -> (r: bool)
        ensures
            r == (self@.issued < u64::MAX),
    {
        self.issued < u64::MAX
    }

    /// A copy of the row that is current.
    pub fn snapshot(&self) -> (row: Vec<String>)
        ensures
            shown(row@) == self@.current,
    {
        copy_row(&self.current)
    }

    /// True while `handle` belongs to a subscriber.
    pub fn is_subscribed(&self, handle: u64) -> (r: bool)
        ensures
            r == self@.pending.contains_key(handle),
    {
        self.find(handle).is_some()
    }

    /// The place of the subscriber `handle` in the list, if they are in it.
    fn find(&self, handle: u64) -> (r: Option<usize>)
        ensures
            match r {
                Some(i) => i < self.subscribers@.len() && self.subscribers@[i as int].id == handle,
                None => !listed(self.subscribers@, handle),
            },
    {
        let mut i: usize = 0;
        while i < self.subscribers.len()
            invariant
                i <= self.subscribers@.len(),
                forall|j: int| 0 <= j < i ==> (#[trigger] self.subscribers@[j]).id != handle,
            decreases self.subscribers@.len() - i,
        {
            if self.subscribers[i].id == handle {
                return Some(i);
            }
            i = i + 1;
        }
        None
    }
}

impl BroadcastHub {
    /// Makes `row` the current row and puts a copy at the end of every
    /// subscriber's queue. A queue that is full loses its oldest row first,
    /// so a slow viewer skips rows and the publisher never waits.
    pub fn publish(&mut self, row: Vec<String>)
        requires
            old(self).wf(),
        ensures
            final(self).wf(),
            final(self)@ == published(old(self)@, shown(row@)),
    {
        let n: usize = self.subscribers.len();
        let ghost before = self.subscribers@;
        let ghost text = shown(row@);
        let ghost cap = self.capacity as nat;
        let mut i: usize = 0;
        while i < n
            invariant
                i <= n,
                cap > 0,
                self.capacity == cap,
                self.issued == old(self).issued,
                before == old(self).subscribers@,
                text == shown(row@),
                self.subscribers@.len() == n,
                before.len() == n,
                forall|j: int| 0 <= j < n ==> (#[trigger] self.subscribers@[j]).id == before[j].id,
                forall|j: int|
                    0 <= j < n ==> (#[trigger] self.subscribers@[j]).queue@.len() <= cap,
                forall|j: int|
                    0 <= j < i ==> rows_of((#[trigger] self.subscribers@[j]).queue@) == pushed(
                        rows_of(before[j].queue@),
                        text,
                        cap,
                    ),
                forall|j: int|
                    i <= j < n ==> (#[trigger] self.subscribers@[j]).queue@ == before[j].queue@,
            decreases n - i,
        {
            let ghost was = self.subscribers@[i as int].queue@;
            if self.subscribers[i].queue.len() >= self.capacity {
                self.subscribers[i].queue.pop_front();
            }
            let ghost kept = self.subscribers@[i as int].queue@;
            self.subscribers[i].queue.push_back(copy_row(&row));
            proof {
                let now = self.subscribers@[i as int].queue@;
                if was.len() < cap {
                    assert(rows_of(now) =~= rows_of(was).push(text));
                } else {
                    assert(rows_of(kept) =~= rows_of(was).drop_first());
                    assert(rows_of(now) =~= rows_of(kept).push(text));
                }
            }
            i = i + 1;
        }
        self.current = row;
        proof {
            let after = self.subscribers@;
            assert(distinct(after));
            let want = published(old(self)@, text);
            assert forall|h: u64| #[trigger]
                self@.pending.contains_key(h) <==> want.pending.contains_key(h) by {
                if listed(after, h) {
                    let j = slot(after, h);
                    assert(before[j].id == h);
                }
                if listed(before, h) {
                    let j = slot(before, h);
                    assert(after[j].id == h);
                }
            }
            assert forall|h: u64| #[trigger] self@.pending.contains_key(h) implies self@.pending[h]
                == want.pending[h] by {
                let j = slot(after, h);
                assert(before[j].id == h);
                lemma_slot(before, j);
                lemma_slot(after, j);
            }
            assert(self@.pending =~= want.pending);
        }
    }

    /// Registers a new subscriber and hands back the current row together
    /// with their handle. Whatever is published from now on waits in their
    /// queue, so nothing falls between the snapshot and the first row.
    pub fn subscribe(&mut self) -> (r: (Vec<String>, u64))
        requires
            old(self).wf(),
            old(self)@.issued < u64::MAX,
        ensures
            final(self).wf(),
            final(self)@ == entered(old(self)@),
            shown(r.0@) == old(self)@.current,
            r.1 == old(self)@.issued,
            !old(self)@.pending.contains_key(r.1),
    {
        let handle: u64 = self.issued;
        let snapshot: Vec<String> = copy_row(&self.current);
        let ghost before = self.subscribers@;
        proof {
            if listed(before, handle) {
                let j = slot(before, handle);
                assert(before[j].id < self.issued);
            }
        }
        let fresh = Subscriber { id: handle, queue: VecDeque::new() };
        self.subscribers.push(fresh);
        self.issued = self.issued + 1;
        proof {
            let after = self.subscribers@;
            let n = before.len() as int;
            assert(after[n].id == handle);
            assert forall|j: int| 0 <= j < n implies #[trigger] after[j] == before[j] by {}
            assert(distinct(after)) by {
                assert forall|a: int, b: int|
                    0 <= a < after.len() && 0 <= b < after.len() && a != b implies (
                #[trigger] after[a]).id != (#[trigger] after[b]).id by {
                    if a < n {
                        assert(before[a].id < handle);
                    }
                    if b < n {
                        assert(before[b].id < handle);
                    }
                }
            }
            let want = entered(old(self)@);
            assert forall|h: u64| #[trigger]
                self@.pending.contains_key(h) <==> want.pending.contains_key(h) by {
                if listed(after, h) {
                    let j = slot(after, h);
                    if j < n {
                        assert(before[j].id == h);
                    }
                }
                if listed(before, h) {
                    let j = slot(before, h);
                    assert(after[j].id == h);
                }
                if h == handle {
                    assert(after[n].id == h);
                }
            }
            assert forall|h: u64| #[trigger] self@.pending.contains_key(h) implies self@.pending[h]
                == want.pending[h] by {
                let j = slot(after, h);
                lemma_slot(after, j);
                if j < n {
                    assert(before[j].id == h);
                    lemma_slot(before, j);
                } else {
                    assert(rows_of(after[n].queue@) =~= Seq::<Row>::empty());
                }
            }
            assert(self@.pending =~= want.pending);
        }
        (snapshot, handle)
    }

    /// Removes the subscriber `handle` and drops what waited for them. For a
    /// handle that belongs to nobody this does nothing.
    pub fn unsubscribe(&mut self, handle: u64)
        requires
            old(self).wf(),
        ensures
            final(self).wf(),
            final(self)@ == left(old(self)@, handle),
    {
        let ghost before = self.subscribers@;
        match self.find(handle) {
            None => {
                assert(self@.pending =~= left(old(self)@, handle).pending);
            },
            Some(i) => {
                self.subscribers.remove(i);
                proof {
                    let after = self.subscribers@;
                    assert forall|j: int| 0 <= j < after.len() implies #[trigger] after[j] == (if j
                        < i {
                        before[j]
                    } else {
                        before[j + 1]
                    }) by {}
                    assert(distinct(after)) by {
                        assert forall|a: int, b: int|
                            0 <= a < after.len() && 0 <= b < after.len() && a != b implies (
                        #[trigger] after[a]).id != (#[trigger] after[b]).id by {
                            let a0 = if a < i { a } else { a + 1 };
                            let b0 = if b < i { b } else { b + 1 };
                            assert(after[a] == before[a0]);
                            assert(after[b] == before[b0]);
                        }
                    }
                    let want = left(old(self)@, handle);
                    assert forall|h: u64| #[trigger]
                        self@.pending.contains_key(h) <==> want.pending.contains_key(h) by {
                        if listed(after, h) {
                            let j = slot(after, h);
                            let j0 = if j < i { j } else { j + 1 };
                            assert(before[j0].id == h);
                            assert(h != handle);
                        }
                        if listed(before, h) && h != handle {
                            let j0 = slot(before, h);
                            let j = if j0 < i { j0 } else { j0 - 1 };
                            assert(after[j].id == h);
                        }
                    }
                    assert forall|h: u64| #[trigger]
                        self@.pending.contains_key(h) implies self@.pending[h]
                        == want.pending[h] by {
                        let j = slot(after, h);
                        let j0 = if j < i { j } else { j + 1 };
                        assert(before[j0].id == h);
                        lemma_slot(after, j);
                        lemma_slot(before, j0);
                    }
                    assert(self@.pending =~= want.pending);
                }
            },
        }
    }

    /// Hands the subscriber `handle` their oldest waiting row. `None` when
    /// nothing waits for them or the handle belongs to nobody; the hub is
    /// then as it was.
    pub fn next(&mut self, handle: u64) -> (r: Option<Vec<String>>)
        requires
            old(self).wf(),
        ensures
            final(self).wf(),
            match r {
                Some(row) => {
                    &&& old(self)@.pending.contains_key(handle)
                    &&& old(self)@.pending[handle].len() > 0
                    &&& shown(row@) == old(self)@.pending[handle][0]
                    &&& final(self)@ == taken(old(self)@, handle)
                },
                None => {
                    &&& old(self)@.pending.contains_key(handle) ==> old(self)@.pending[handle].len()
                        == 0
                    &&& final(self)@ == old(self)@
                },
            },
    {
        let ghost before = self.subscribers@;
        match self.find(handle) {
            None => None,
            Some(i) => {
                proof {
                    lemma_slot(before, i as int);
                }
                let row: Option<Vec<String>> = self.subscribers[i].queue.pop_front();
                proof {
                    let after = self.subscribers@;
                    assert(after[i as int].id == handle);
                    assert(distinct(after)) by {
                        assert forall|a: int, b: int|
                            0 <= a < after.len() && 0 <= b < after.len() && a != b implies (
                        #[trigger] after[a]).id != (#[trigger] after[b]).id by {
                            assert(after[a].id == before[a].id);
                            assert(after[b].id == before[b].id);
                        }
                    }
                    let want = if row is Some {
                        taken(old(self)@, handle)
                    } else {
                        old(self)@
                    };
                    assert forall|h: u64| #[trigger]
                        self@.pending.contains_key(h) <==> want.pending.contains_key(h) by {
                        if listed(after, h) {
                            let j = slot(after, h);
                            assert(before[j].id == h);
                        }
                        if listed(before, h) {
                            let j = slot(before, h);
                            assert(after[j].id == h);
                        }
                    }
                    assert forall|h: u64| #[trigger]
                        self@.pending.contains_key(h) implies self@.pending[h]
                        == want.pending[h] by {
                        let j = slot(after, h);
                        assert(before[j].id == h);
                        lemma_slot(after, j);
                        lemma_slot(before, j);
                        if j == i {
                            if row is Some {
                                assert(rows_of(after[j].queue@) =~= rows_of(
                                    before[j].queue@,
                                ).drop_first());
                            }
                        }
                    }
                    assert(self@.pending =~= want.pending);
                }
                row
            },
        }
    }
}

/// The hub after the rows of `rows` have been published one after another.
pub open spec fn published_all(state: HubState, rows: Seq<Row>) -> HubState
    decreases rows.len(),
{
    if rows.len() == 0 {
        state
    } else {
        published(published_all(state, rows.drop_last()), rows.last())
    }
}

/// How many rows too many a queue of `len` would be for `capacity`.
pub open spec fn excess(len: nat, capacity: nat) -> nat {
    if len > capacity {
        (len - capacity) as nat
    } else {
        0
    }
}

/// Publishing delivers in order and at most once: after any run of
/// publishes a subscriber's queue is what waited before followed by the
/// rows published, in that order, less only as many of the oldest as the
/// capacity could not hold. While the capacity is not exceeded nothing is
/// lost, so every row arrives exactly once.
pub proof fn lemma_delivery_in_order(state: HubState, handle: u64, rows: Seq<Row>)
    requires
        state.capacity > 0,
        state.pending.contains_key(handle),
        state.pending[handle].len() <= state.capacity,
    ensures
        published_all(state, rows).capacity == state.capacity,
        published_all(state, rows).issued == state.issued,
        published_all(state, rows).pending.contains_key(handle),
        published_all(state, rows).pending[handle] == (state.pending[handle] + rows).skip(
            excess((state.pending[handle] + rows).len(), state.capacity) as int,
        ),
        state.pending[handle].len() + rows.len() <= state.capacity ==> published_all(
            state,
            rows,
        ).pending[handle] == state.pending[handle] + rows,
        rows.len() > 0 ==> published_all(state, rows).current == rows.last(),
    decreases rows.len(),
{
    let waiting = state.pending[handle];
    let cap = state.capacity;
    if rows.len() == 0 {
        assert(waiting + rows =~= waiting);
        assert(waiting.skip(0) =~= waiting);
    } else {
        let earlier = rows.drop_last();
        lemma_delivery_in_order(state, handle, earlier);
        let mid = published_all(state, earlier);
        let queue = mid.pending[handle];
        let all_earlier = waiting + earlier;
        let all = waiting + rows;
        assert(all =~= all_earlier.push(rows.last()));
        assert(pushed(queue, rows.last(), cap) =~= all.skip(excess(all.len(), cap) as int));
        if waiting.len() + rows.len() <= cap {
            assert(all.skip(0) =~= all);
        }
    }
}

/// Every subscriber is served alike: two of them with the same rows waiting
/// have the same rows waiting after any run of publishes.
pub proof fn lemma_same_for_all(state: HubState, first: u64, second: u64, rows: Seq<Row>)
    requires
        state.capacity > 0,
        state.pending.contains_key(first),
        state.pending.contains_key(second),
        state.pending[first] == state.pending[second],
        state.pending[first].len() <= state.capacity,
    ensures
        published_all(state, rows).pending[first] == published_all(state, rows).pending[second],
{
    lemma_delivery_in_order(state, first, rows);
    lemma_delivery_in_order(state, second, rows);
}

/// A subscriber who joins is owed everything published afterwards: with
/// room for all of it, their queue holds exactly those rows, in publish
/// order, and nobody else's queue is touched by the joining.
pub proof fn lemma_joined_then_published(state: HubState, rows: Seq<Row>)
    requires
        state.capacity > 0,
        state.issued < u64::MAX,
        rows.len() <= state.capacity,
    ensures
        published_all(entered(state), rows).pending.contains_key(state.issued as u64),
        published_all(entered(state), rows).pending[state.issued as u64] == rows,
{
    let start = entered(state);
    let handle = state.issued as u64;
    lemma_delivery_in_order(start, handle, rows);
    assert(Seq::<Row>::empty() + rows =~= rows);
}

/// Leaving twice is leaving once.
pub proof fn lemma_left_twice(state: HubState, handle: u64)
    ensures
        left(left(state, handle), handle) == left(state, handle),
{
    assert(left(left(state, handle), handle).pending =~= left(state, handle).pending);
}

} // verus!
