//! The loader: the facade that callers register keys with, the scheduler
//! that closes the open window and hands its keys out as one batch, and the
//! record of the batches that are in flight or resolved, so that no key is
//! fetched twice in one unit of work.

use crate::window::{lemma_registered_keeps, lemma_slot_unique, registered, slot_of, Window};
use vstd::prelude::*;

verus! {

/// A caller's claim on one entry: the window in which the key was registered
/// and the key's place in that window's batch. Callers that ask for the same
/// key hold equal tickets.
#[derive(Clone, Copy, Debug, PartialEq, Eq, Structural)]
pub struct Ticket {
    pub window: u64,
    pub slot: usize,
}

/// The keys of one closed window: the argument of one backing fetch.
#[derive(Debug)]
pub struct Batch {
    pub window: u64,
    pub keys: Vec<i32>,
}

/// A batch as a value.
pub struct BatchView {
    pub window: u64,
    pub keys: Seq<i32>,
}

impl Batch {
    /// The batch as a value.
    pub open spec fn view(&self) -> BatchView {
        BatchView { window: self.window, keys: self.keys@ }
    }
}

/// A list of batches as values.
pub open spec fn batch_views(batches: Seq<Batch>) -> Seq<BatchView> {
    Seq::new(batches.len(), |i: int| batches[i]@)
}

/// Whether one of `batches` holds `key`.
pub open spec fn holds(batches: Seq<BatchView>, key: i32) -> bool {
    exists|i: int| 0 <= i < batches.len() && (#[trigger] batches[i]).keys.contains(key)
}

/// Whether `ticket` names the entry of `key` in one of `batches`.
pub open spec fn entry_of(batches: Seq<BatchView>, key: i32, ticket: Ticket) -> bool {
    exists|i: int|
        0 <= i < batches.len() && (#[trigger] batches[i]).window == ticket.window && ticket.slot
            < batches[i].keys.len() && batches[i].keys[ticket.slot as int] == key
}

/// No batch holds a key twice, and no two batches share a key.
pub open spec fn separate(batches: Seq<BatchView>) -> bool {
    &&& forall|i: int| 0 <= i < batches.len() ==> (#[trigger] batches[i]).keys.no_duplicates()
    &&& forall|i: int, j: int, key: i32|
        0 <= i < batches.len() && 0 <= j < batches.len() && i != j
            && #[trigger] batches[i].keys.contains(key) ==> !#[trigger] batches[j].keys.contains(key)
}

/// Whether `i` is the place of the oldest of `batches` with number `window`.
pub open spec fn first_with(batches: Seq<BatchView>, window: u64, i: int) -> bool {
    &&& 0 <= i < batches.len()
    &&& batches[i].window == window
    &&& forall|j: int| 0 <= j < i ==> (#[trigger] batches[j]).window != window
}

/// The number of the window that opens when window `id` closes.
pub open spec fn next_window_id(id: u64) -> u64 {
    if id == u64::MAX {
        0
    } else {
        (id + 1) as u64
    }
}

/// Computes the number of the window that opens when window `id` closes.
/// After the last number the count starts again at zero.
pub fn following_window(id: u64) -> (next: u64)
    ensures
        next == next_window_id(id),
        next != id,
{
    if id == u64::MAX {
        0
    } else {
        id + 1
    }
}

/// The loader as a value: the number of the open window, its pending keys,
/// oldest first, whether a flush of the open window has been asked for, the
/// batches whose fetch has started and not ended, and the batches whose fetch
/// has ended.
pub struct LoaderState {
    pub window_id: u64,
    pub pending: Seq<i32>,
    pub flush_requested: bool,
    pub in_flight: Seq<BatchView>,
    pub resolved: Seq<BatchView>,
}

impl LoaderState {
    /// Whether `key` is in flight or resolved: a fetch for it has started in
    /// this unit of work.
    pub open spec fn taken(self, key: i32) -> bool {
        holds(self.in_flight, key) || holds(self.resolved, key)
    }

    /// The state after a request for `key`: a key that is in flight or
    /// resolved changes nothing, any other is registered in the open window.
    pub open spec fn after_load(self, key: i32) -> LoaderState {
        if self.taken(key) {
            self
        } else {
            LoaderState { pending: registered(self.pending, key), ..self }
        }
    }

    /// The state after the requests of `keys`, from left to right.
    pub open spec fn after_load_many(self, keys: Seq<i32>) -> LoaderState
        decreases keys.len(),
    {
        if keys.len() == 0 {
            self
        } else {
            self.after_load_many(keys.drop_last()).after_load(keys.last())
        }
    }

    /// Whether `ticket` is the one that a request for `key` gets in this
    /// state: that of the key's entry in flight, else that of its resolved
    /// entry, else that of its entry in the open window.
    pub open spec fn issues(self, key: i32, ticket: Ticket) -> bool {
        if holds(self.in_flight, key) {
            entry_of(self.in_flight, key, ticket)
        } else if holds(self.resolved, key) {
            entry_of(self.resolved, key, ticket)
        } else {
            &&& ticket.window == self.window_id
            &&& ticket.slot as int == slot_of(registered(self.pending, key), key)
        }
    }

    /// No key is pending twice, a flush is asked for only while keys are
    /// pending, and every key has at most one entry among the open window,
    /// the batches in flight and the resolved batches.
    pub open spec fn wf(self) -> bool {
        &&& self.pending.no_duplicates()
        &&& self.flush_requested ==> self.pending.len() > 0
        &&& separate(self.in_flight)
        &&& separate(self.resolved)
        &&& forall|key: i32| #[trigger] holds(self.in_flight, key) ==> !holds(self.resolved, key)
        &&& forall|key: i32| #[trigger]
            self.pending.contains(key) ==> !holds(self.in_flight, key) && !holds(self.resolved, key)
    }

    /// Whether a flush of the open window has to be scheduled now: keys are
    /// pending and no flush has been asked for since the window opened.
    pub open spec fn flush_due(self) -> bool {
        self.pending.len() > 0 && !self.flush_requested
    }

    /// The state after the scheduler was asked whether a flush is due.
    pub open spec fn after_flush_request(self) -> LoaderState {
        LoaderState { flush_requested: self.pending.len() > 0, ..self }
    }

    /// Whether a flush in this state starts a backing fetch.
    pub open spec fn flushes(self) -> bool {
        self.pending.len() > 0
    }

    /// The batch that a flush in this state hands out.
    pub open spec fn leaving(self) -> BatchView {
        BatchView { window: self.window_id, keys: self.pending }
    }

    /// The state after a flush: an empty window stays open; any other goes
    /// in flight as one batch and is replaced by a new, empty one.
    pub open spec fn after_flush(self) -> LoaderState {
        if self.flushes() {
            LoaderState {
                window_id: next_window_id(self.window_id),
                pending: Seq::empty(),
                flush_requested: false,
                in_flight: self.in_flight.push(self.leaving()),
                resolved: self.resolved,
            }
        } else {
            self
        }
    }

    /// Whether a batch with number `window` is in flight.
    pub open spec fn in_flight_has(self, window: u64) -> bool {
        exists|i: int| first_with(self.in_flight, window, i)
    }

    /// The place of the oldest batch in flight with number `window`.
    pub open spec fn flight_index(self, window: u64) -> int {
        choose|i: int| first_with(self.in_flight, window, i)
    }

    /// The state after the fetch of the batch with number `window` has
    /// ended: the oldest such batch in flight is resolved. With no such batch
    /// in flight nothing changes.
    pub open spec fn after_complete(self, window: u64) -> LoaderState {
        if self.in_flight_has(window) {
            LoaderState {
                in_flight: self.in_flight.remove(self.flight_index(window)),
                resolved: self.resolved.push(self.in_flight[self.flight_index(window)]),
                ..self
            }
        } else {
            self
        }
    }
}

/// A list with one more batch holds what the list held and what the batch
/// holds.
pub proof fn lemma_holds_push(batches: Seq<BatchView>, batch: BatchView, key: i32)
    ensures
        holds(batches.push(batch), key) <==> holds(batches, key) || batch.keys.contains(key),
{
    let more = batches.push(batch);
    if holds(batches, key) {
        let i = choose|i: int| 0 <= i < batches.len() && (#[trigger] batches[i]).keys.contains(key);
        assert(more[i].keys.contains(key));
    }
    if batch.keys.contains(key) {
        assert(more[batches.len() as int].keys.contains(key));
    }
    if holds(more, key) {
        let i = choose|i: int| 0 <= i < more.len() && (#[trigger] more[i]).keys.contains(key);
        if i < batches.len() {
            assert(batches[i].keys.contains(key));
        }
    }
}

/// A list with one batch taken out holds what the list held but for what
/// only that batch holds.
pub proof fn lemma_holds_remove(batches: Seq<BatchView>, at: int, key: i32)
    requires
        0 <= at < batches.len(),
    ensures
        holds(batches, key) <==> holds(batches.remove(at), key) || batches[at].keys.contains(key),
        separate(batches) && batches[at].keys.contains(key) ==> !holds(batches.remove(at), key),
{
    let rest = batches.remove(at);
    if holds(batches, key) {
        let i = choose|i: int| 0 <= i < batches.len() && (#[trigger] batches[i]).keys.contains(key);
        if i < at {
            assert(rest[i].keys.contains(key));
        } else if i > at {
            assert(rest[i - 1].keys.contains(key));
        }
    }
    if holds(rest, key) {
        let i = choose|i: int| 0 <= i < rest.len() && (#[trigger] rest[i]).keys.contains(key);
        if i < at {
            assert(batches[i].keys.contains(key));
        } else {
            assert(batches[i + 1].keys.contains(key));
        }
    }
}

/// Taking a batch out of a list of separate batches leaves them separate.
pub proof fn lemma_separate_remove(batches: Seq<BatchView>, at: int)
    requires
        separate(batches),
        0 <= at < batches.len(),
    ensures
        separate(batches.remove(at)),
{
    let rest = batches.remove(at);
    assert forall|i: int| 0 <= i < rest.len() implies (#[trigger] rest[i]).keys.no_duplicates() by {
        if i < at {
            assert(rest[i] == batches[i]);
        } else {
            assert(rest[i] == batches[i + 1]);
        }
    }
    assert forall|i: int, j: int, key: i32|
        0 <= i < rest.len() && 0 <= j < rest.len() && i != j && #[trigger] rest[i].keys.contains(
            key,
        ) implies !#[trigger] rest[j].keys.contains(key) by {
        let a = if i < at { i } else { i + 1 };
        let b = if j < at { j } else { j + 1 };
        assert(rest[i] == batches[a]);
        assert(rest[j] == batches[b]);
        assert(batches[a].keys.contains(key));
    }
}

/// Adding a batch without duplicates, none of whose keys the list holds,
/// to a list of separate batches leaves them separate.
pub proof fn lemma_separate_push(batches: Seq<BatchView>, batch: BatchView)
    requires
        separate(batches),
        batch.keys.no_duplicates(),
        forall|key: i32| #[trigger] batch.keys.contains(key) ==> !holds(batches, key),
    ensures
        separate(batches.push(batch)),
{
    let more = batches.push(batch);
    assert forall|i: int| 0 <= i < more.len() implies (#[trigger] more[i]).keys.no_duplicates() by {
        if i < batches.len() {
            assert(more[i] == batches[i]);
        }
    }
    assert forall|i: int, j: int, key: i32|
        0 <= i < more.len() && 0 <= j < more.len() && i != j && #[trigger] more[i].keys.contains(
            key,
        ) implies !#[trigger] more[j].keys.contains(key) by {
        if i < batches.len() && j < batches.len() {
            assert(more[i] == batches[i]);
            assert(more[j] == batches[j]);
            assert(batches[i].keys.contains(key));
        } else if i < batches.len() {
            assert(more[i] == batches[i]);
            assert(batches[i].keys.contains(key));
            assert(holds(batches, key));
        } else {
            assert(batch.keys.contains(key));
            if more[j].keys.contains(key) {
                assert(more[j] == batches[j]);
                assert(batches[j].keys.contains(key));
                assert(holds(batches, key));
            }
        }
    }
}

/// In a well-formed state a key has one ticket.
pub proof fn lemma_ticket_unique(state: LoaderState, key: i32, first: Ticket, second: Ticket)
    requires
        state.wf(),
        state.issues(key, first),
        state.issues(key, second),
    ensures
        first == second,
{
    if holds(state.in_flight, key) {
        lemma_entry_unique(state.in_flight, key, first, second);
    } else if holds(state.resolved, key) {
        lemma_entry_unique(state.resolved, key, first, second);
    }
}

/// Among separate batches a key has one entry.
pub proof fn lemma_entry_unique(batches: Seq<BatchView>, key: i32, first: Ticket, second: Ticket)
    requires
        separate(batches),
        entry_of(batches, key, first),
        entry_of(batches, key, second),
    ensures
        first == second,
{
    let i = choose|i: int|
        0 <= i < batches.len() && (#[trigger] batches[i]).window == first.window && first.slot
            < batches[i].keys.len() && batches[i].keys[first.slot as int] == key;
    let j = choose|j: int|
        0 <= j < batches.len() && (#[trigger] batches[j]).window == second.window && second.slot
            < batches[j].keys.len() && batches[j].keys[second.slot as int] == key;
    assert(batches[i].keys.contains(key));
    assert(batches[j].keys.contains(key));
    assert(i == j);
}

/// A request keeps the state well formed, and the ticket it gets is the
/// key's ticket from then on, whatever is requested after it.
pub proof fn lemma_load_keeps(state: LoaderState, key: i32)
    requires
        state.wf(),
    ensures
        state.after_load(key).wf(),
        state.after_load(key).taken(key) || state.after_load(key).pending.contains(key),
        forall|ticket: Ticket| #[trigger]
            state.issues(key, ticket) ==> state.after_load(key).issues(key, ticket),
        forall|other: i32, ticket: Ticket|
            (state.taken(other) || state.pending.contains(other)) && #[trigger] state.issues(
                other,
                ticket,
            ) ==> state.after_load(key).issues(other, ticket),
{
    lemma_registered_keeps(state.pending, key);
    let after = state.after_load(key);
    if !state.taken(key) {
        assert forall|k: i32| #[trigger] after.pending.contains(k) implies !holds(after.in_flight, k)
            && !holds(after.resolved, k) by {
            if !state.pending.contains(k) {
                let i = after.pending.index_of(k);
                if i < state.pending.len() {
                    assert(state.pending[i] == k);
                }
            }
        }
        assert(registered(after.pending, key) == after.pending);
        assert forall|other: i32, ticket: Ticket|
            (state.taken(other) || state.pending.contains(other)) && #[trigger] state.issues(
                other,
                ticket,
            ) implies after.issues(other, ticket) by {
            if !state.taken(other) {
                assert(registered(state.pending, other) == state.pending);
                assert(after.pending.contains(other));
                assert(registered(after.pending, other) == after.pending);
            }
        }
    } else {
        assert forall|other: i32, ticket: Ticket|
            (state.taken(other) || state.pending.contains(other)) && #[trigger] state.issues(
                other,
                ticket,
            ) implies after.issues(other, ticket) by {}
    }
}

/// A flush keeps the state well formed, and the batch that leaves shares no
/// key with a batch in flight or a resolved one.
pub proof fn lemma_flush_keeps(state: LoaderState)
    requires
        state.wf(),
    ensures
        state.after_flush().wf(),
        forall|key: i32| #[trigger] state.leaving().keys.contains(key) ==> !state.taken(key),
{
    if state.flushes() {
        let after = state.after_flush();
        lemma_separate_push(state.in_flight, state.leaving());
        assert forall|key: i32| #[trigger] holds(after.in_flight, key) implies !holds(
            after.resolved,
            key,
        ) by {
            lemma_holds_push(state.in_flight, state.leaving(), key);
        }
    }
}

/// The end of a fetch keeps the state well formed and keeps every key that
/// was in flight or resolved in flight or resolved.
pub proof fn lemma_complete_keeps(state: LoaderState, window: u64)
    requires
        state.wf(),
    ensures
        state.after_complete(window).wf(),
        forall|key: i32| #[trigger] state.after_complete(window).taken(key) <==> state.taken(key),
{
    let after = state.after_complete(window);
    if state.in_flight_has(window) {
        let at = state.flight_index(window);
        let batch = state.in_flight[at];
        assert(first_with(state.in_flight, window, at));
        lemma_separate_remove(state.in_flight, at);
        assert forall|key: i32| #[trigger] batch.keys.contains(key) implies !holds(
            state.resolved,
            key,
        ) by {
            assert(holds(state.in_flight, key));
        }
        lemma_separate_push(state.resolved, batch);
        assert forall|key: i32|
            (#[trigger] holds(after.in_flight, key) ==> !holds(after.resolved, key)) && (after.taken(
                key,
            ) <==> state.taken(key)) by {
            lemma_holds_remove(state.in_flight, at, key);
            lemma_holds_push(state.resolved, batch, key);
        }
        assert forall|key: i32| #[trigger] after.taken(key) <==> state.taken(key) by {
            lemma_holds_remove(state.in_flight, at, key);
            lemma_holds_push(state.resolved, batch, key);
        }
        assert forall|key: i32| #[trigger] after.pending.contains(key) implies !holds(
            after.in_flight,
            key,
        ) && !holds(after.resolved, key) by {
            lemma_holds_remove(state.in_flight, at, key);
            lemma_holds_push(state.resolved, batch, key);
        }
    }
}

/// A copy of a key list.
fn copy_keys(keys: &Vec<i32>) -> (copy: Vec<i32>)
    ensures
        copy@ == keys@,
{
    let mut copy: Vec<i32> = Vec::new();
    let mut i: usize = 0;
    while i < keys.len()
        invariant
            i <= keys@.len(),
            copy@ == keys@.take(i as int),
        decreases keys@.len() - i,
    {
        copy.push(keys[i]);
        assert(keys@.take(i + 1) =~= keys@.take(i as int).push(keys@[i as int]));
        i += 1;
    }
    assert(keys@.take(keys@.len() as int) =~= keys@);
    copy
}

/// The entry of `key` among `batches`, if one of them holds it.
pub fn find_entry(batches: &Vec<Batch>, key: i32) -> (found: Option<Ticket>)
    ensures
        found is Some <==> holds(batch_views(batches@), key),
        found is Some ==> entry_of(batch_views(batches@), key, found.unwrap()),
{
    let ghost views = batch_views(batches@);
    let mut i: usize = 0;
    while i < batches.len()
        invariant
            i <= batches@.len(),
            views == batch_views(batches@),
            forall|j: int| 0 <= j < i ==> !(#[trigger] views[j]).keys.contains(key),
        decreases batches@.len() - i,
    {
        let batch = &batches[i];
        let mut slot: usize = 0;
        while slot < batch.keys.len()
            invariant
                i < batches@.len(),
                views == batch_views(batches@),
                *batch == batches@[i as int],
                slot <= batch.keys@.len(),
                forall|s: int| 0 <= s < slot ==> batch.keys@[s] != key,
            decreases batch.keys@.len() - slot,
        {
            if batch.keys[slot] == key {
                assert(views[i as int] == batch@);
                assert(views[i as int].keys.contains(key));
                return Some(Ticket { window: batch.window, slot });
            }
            slot += 1;
        }
        assert(views[i as int] == batch@);
        i += 1;
    }
    None
}

/// A loader for one unit of work. It owns the open window and remembers the
/// batches that it handed out.
pub struct Loader {
    window: Window,
    window_id: u64,
    flush_requested: bool,
    in_flight: Vec<Batch>,
    resolved: Vec<Batch>,
}

impl Loader {
    /// The loader's state as a value.
    pub closed spec fn view(&self) -> LoaderState {
        LoaderState {
            window_id: self.window_id,
            pending: self.window@,
            flush_requested: self.flush_requested,
            in_flight: batch_views(self.in_flight@),
            resolved: batch_views(self.resolved@),
        }
    }

    /// The loader's state is well formed.
    pub open spec fn wf(&self) -> bool {
        self@.wf()
    }

    /// A loader whose first window is open and empty, with nothing in flight
    /// and nothing resolved.
    pub fn new() -> (loader: Loader)
        ensures
            loader.wf(),
            loader@ == (LoaderState {
                window_id: 0,
                pending: Seq::empty(),
                flush_requested: false,
                in_flight: Seq::empty(),
                resolved: Seq::empty(),
            }),
    {
        let loader = Loader {
            window: Window::new(),
            window_id: 0,
            flush_requested: false,
            in_flight: Vec::new(),
            resolved: Vec::new(),
        };
        assert(batch_views(loader.in_flight@) =~= Seq::empty());
        assert(batch_views(loader.resolved@) =~= Seq::empty());
        loader
    }

    /// The number of the open window.
    pub fn window_id(&self) -> (id: u64)
        ensures
            id == self@.window_id,
    {
        self.window_id
    }

    /// The number of distinct keys pending in the open window.
    pub fn pending_len(&self) -> (n: usize)
        ensures
            n == self@.pending.len(),
    {
        self.window.len()
    }

    /// The number of batches in flight.
    pub fn in_flight_len(&self) -> (n: usize)
        ensures
            n == self@.in_flight.len(),
    {
        self.in_flight.len()
    }

    /// Registers a request for one key and returns the caller's ticket. A
    /// key that is in flight or resolved gets the ticket of that entry and
    /// leaves the open window as it is: it is not fetched again. A key that
    /// is pending gets the ticket of its pending entry. Any other key gets a
    /// new entry behind all others of the open window.
    pub fn load_one(&mut self, key: i32) -> (ticket: Ticket)
        requires
            old(self).wf(),
        ensures
            final(self).wf(),
            final(self)@ == old(self)@.after_load(key),
            old(self)@.issues(key, ticket),
            final(self)@.issues(key, ticket),
            old(self)@.taken(key) ==> final(self)@ == old(self)@,
    {
        proof {
            lemma_load_keeps(self@, key);
        }
        if let Some(ticket) = find_entry(&self.in_flight, key) {
            return ticket;
        }
        if let Some(ticket) = find_entry(&self.resolved, key) {
            return ticket;
        }
        let slot = self.window.register(key);
        Ticket { window: self.window_id, slot }
    }

    /// Registers a request for every key of `keys`, from left to right, and
    /// returns one ticket per key, in the order of `keys`. Equal keys get
    /// equal tickets.
    pub fn load_many(&mut self, keys: &Vec<i32>) -> (tickets: Vec<Ticket>)
        requires
            old(self).wf(),
        ensures
            final(self).wf(),
            final(self)@ == old(self)@.after_load_many(keys@),
            keys@.len() == 0 ==> final(self)@ == old(self)@,
            tickets@.len() == keys@.len(),
            forall|i: int|
                0 <= i < keys@.len() ==> final(self)@.issues(keys@[i], #[trigger] tickets@[i]),
    {
        let ghost before = self@;
        let mut tickets: Vec<Ticket> = Vec::new();
        let mut i: usize = 0;
        assert(keys@.take(0) =~= Seq::<i32>::empty());
        while i < keys.len()
            invariant
                self.wf(),
                i <= keys@.len(),
                tickets@.len() == i,
                self@ == before.after_load_many(keys@.take(i as int)),
                forall|j: int|
                    0 <= j < i ==> self@.taken(#[trigger] keys@[j]) || self@.pending.contains(
                        keys@[j],
                    ),
                forall|j: int| 0 <= j < i ==> self@.issues(keys@[j], #[trigger] tickets@[j]),
            decreases keys@.len() - i,
        {
            let ghost state = self@;
            let ghost issued = tickets@;
            proof {
                lemma_load_keeps(state, keys@[i as int]);
                assert(keys@.take(i + 1).drop_last() =~= keys@.take(i as int));
            }
            let ticket = self.load_one(keys[i]);
            tickets.push(ticket);
            proof {
                assert forall|j: int| 0 <= j < i + 1 implies self@.taken(#[trigger] keys@[j])
                    || self@.pending.contains(keys@[j]) by {
                    if j < i {
                        if !state.taken(keys@[j]) {
                            assert(state.pending.contains(keys@[j]));
                            lemma_registered_keeps(state.pending, keys@[i as int]);
                        }
                    }
                }
                assert forall|j: int| 0 <= j < i + 1 implies self@.issues(
                    keys@[j],
                    #[trigger] tickets@[j],
                ) by {
                    if j < i {
                        assert(tickets@[j] == issued[j]);
                        assert(state.issues(keys@[j], issued[j]));
                    }
                }
            }
            i += 1;
        }
        proof {
            assert(keys@.take(keys@.len() as int) =~= keys@);
        }
        tickets
    }

    /// Asks whether a flush of the open window has to be scheduled, and notes
    /// that it was asked for. The answer is yes once per window: at the first
    /// call after a key became pending in it.
    pub fn request_flush(&mut self) -> (due: bool)
        requires
            old(self).wf(),
        ensures
            final(self).wf(),
            due == old(self)@.flush_due(),
            final(self)@ == old(self)@.after_flush_request(),
    {
        let pending = !self.window.is_empty();
        let due = pending && !self.flush_requested;
        self.flush_requested = pending;
        due
    }

    /// Closes the open window. With no key pending nothing happens and no
    /// batch is handed out. Otherwise the pending keys leave as one batch, in
    /// first-seen order and under the closed window's number; the batch is
    /// in flight from then on, and a new, empty window is open when the call
    /// returns. The batch shares no key with a batch in flight or a resolved
    /// one.
    pub fn flush(&mut self) -> (batch: Option<Batch>)
        requires
            old(self).wf(),
        ensures
            final(self).wf(),
            final(self)@ == old(self)@.after_flush(),
            batch is Some <==> old(self)@.flushes(),
            batch is Some ==> batch.unwrap()@ == old(self)@.leaving(),
            batch is Some ==> batch.unwrap().keys@.len() > 0 && batch.unwrap().keys@.no_duplicates(),
            batch is Some ==> forall|key: i32| #[trigger]
                batch.unwrap().keys@.contains(key) ==> !holds(old(self)@.in_flight, key) && !holds(
                    old(self)@.resolved,
                    key,
                ),
    {
        proof {
            lemma_flush_keeps(self@);
        }
        if self.window.is_empty() {
            assert(self@.pending =~= old(self)@.pending);
            return None;
        }
        let keys = self.window.take();
        let window = self.window_id;
        let kept = Batch { window, keys: copy_keys(&keys) };
        assert(batch_views(self.in_flight@.push(kept)) =~= batch_views(self.in_flight@).push(kept@));
        self.in_flight.push(kept);
        self.flush_requested = false;
        self.window_id = following_window(window);
        Some(Batch { window, keys })
    }

    /// The place of the oldest batch in flight with number `window`.
    fn find_flight(&self, window: u64) -> (found: Option<usize>)
        ensures
            found is Some <==> self@.in_flight_has(window),
            found is Some ==> found.unwrap() as int == self@.flight_index(window),
            found is Some ==> found.unwrap() < self.in_flight@.len(),
    {
        let ghost views = self@.in_flight;
        let mut i: usize = 0;
        while i < self.in_flight.len()
            invariant
                i <= self.in_flight@.len(),
                views == batch_views(self.in_flight@),
                forall|j: int| 0 <= j < i ==> (#[trigger] views[j]).window != window,
            decreases self.in_flight@.len() - i,
        {
            if self.in_flight[i].window == window {
                assert(views[i as int] == self.in_flight@[i as int]@);
                assert(first_with(views, window, i as int));
                let ghost chosen = self@.flight_index(window);
                assert(first_with(views, window, chosen));
                assert(chosen == i) by {
                    if chosen < i {
                        assert(views[chosen].window != window);
                    } else if i < chosen {
                        assert(views[i as int].window != window);
                    }
                }
                return Some(i);
            }
            assert(views[i as int] == self.in_flight@[i as int]@);
            i += 1;
        }
        assert(!self@.in_flight_has(window)) by {
            if self@.in_flight_has(window) {
                let at = self@.flight_index(window);
                assert(first_with(views, window, at));
                assert(views[at].window != window);
            }
        }
        None
    }

    /// Ends the flight of the batch with number `window`: its keys are
    /// resolved from then on, and a later request for one of them gets the
    /// ticket it would have got before. Returns whether such a batch was in
    /// flight; if none was, nothing changes.
    pub fn complete(&mut self, window: u64) -> (found: bool)
        requires
            old(self).wf(),
        ensures
            final(self).wf(),
            found == old(self)@.in_flight_has(window),
            final(self)@ == old(self)@.after_complete(window),
    {
        proof {
            lemma_complete_keeps(self@, window);
        }
        match self.find_flight(window) {
            None => false,
            Some(at) => {
                let ghost flights = self.in_flight@;
                let ghost done = self.resolved@;
                let batch = self.in_flight.remove(at);
                assert(batch_views(flights.remove(at as int)) =~= batch_views(flights).remove(
                    at as int,
                ));
                assert(batch_views(done.push(batch)) =~= batch_views(done).push(batch@));
                self.resolved.push(batch);
                true
            },
        }
    }
}

} // verus!
