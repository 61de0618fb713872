//! What holds of the loader as a whole: statements that relate several of
//! its operations, proved over the loader's state as a value.

use crate::dispatch::{resolved, Outcome, Resolution};
use crate::loader::{
    entry_of, holds, lemma_complete_keeps, lemma_flush_keeps, lemma_holds_push, lemma_holds_remove,
    lemma_load_keeps, lemma_ticket_unique, first_with, LoaderState, Ticket,
};
use crate::window::{lemma_registered_keeps, lemma_slot_unique, registered, slot_of};
use vstd::prelude::*;

verus! {

/// One burst of requests on a well-formed loader: the loader stays well
/// formed, nothing but the open window changes, the window keeps what was
/// pending in front and gains exactly the requested keys that are neither in
/// flight nor resolved, and the ticket that each request got is still the
/// ticket of its key when the burst is over.
pub proof fn lemma_burst(state: LoaderState, requests: Seq<i32>)
    requires
        state.wf(),
    ensures
        state.after_load_many(requests).wf(),
        state.after_load_many(requests).window_id == state.window_id,
        state.after_load_many(requests).flush_requested == state.flush_requested,
        state.after_load_many(requests).in_flight == state.in_flight,
        state.after_load_many(requests).resolved == state.resolved,
        state.pending.len() <= state.after_load_many(requests).pending.len(),
        forall|i: int|
            0 <= i < state.pending.len() ==> #[trigger] state.after_load_many(requests).pending[i]
                == state.pending[i],
        forall|k: i32| #[trigger]
            state.after_load_many(requests).pending.contains(k) <==> state.pending.contains(k) || (
            requests.contains(k) && !state.taken(k)),
        forall|j: int, ticket: Ticket|
            0 <= j < requests.len() && #[trigger] state.after_load_many(requests.take(j)).issues(
                requests[j],
                ticket,
            ) ==> state.after_load_many(requests).issues(requests[j], ticket),
    decreases requests.len(),
{
    let after = state.after_load_many(requests);
    if requests.len() == 0 {
    } else {
        let front = requests.drop_last();
        let key = requests.last();
        let middle = state.after_load_many(front);
        lemma_burst(state, front);
        lemma_load_keeps(middle, key);
        lemma_registered_keeps(middle.pending, key);
        assert forall|k: i32| #[trigger]
            after.pending.contains(k) <==> state.pending.contains(k) || (requests.contains(k)
                && !state.taken(k)) by {
            if after.pending.contains(k) && !middle.pending.contains(k) {
                let i = after.pending.index_of(k);
                if i < middle.pending.len() {
                    assert(middle.pending[i] == k);
                }
                assert(requests[requests.len() - 1] == k);
            }
            if requests.contains(k) {
                let i = requests.index_of(k);
                if i < front.len() {
                    assert(front[i] == k);
                }
            }
            if middle.pending.contains(k) && front.contains(k) {
                let i = front.index_of(k);
                assert(requests[i] == k);
            }
        }
        assert forall|j: int, ticket: Ticket|
            0 <= j < requests.len() && #[trigger] state.after_load_many(requests.take(j)).issues(
                requests[j],
                ticket,
            ) implies after.issues(requests[j], ticket) by {
            if j < front.len() {
                assert(requests.take(j) =~= front.take(j));
                assert(front[j] == requests[j]);
                assert(front.contains(front[j]));
                assert(middle.issues(front[j], ticket));
                assert(middle.taken(front[j]) || middle.pending.contains(front[j]));
            } else {
                assert(requests.take(j) =~= front);
            }
        }
    }
}

/// The state in which a loader starts is well formed, and every step keeps
/// it so: well-formedness holds in every state that a loader can reach.
pub proof fn law_every_step_keeps_the_loader_well_formed(
    state: LoaderState,
    key: i32,
    keys: Seq<i32>,
    window: u64,
)
    requires
        state.wf(),
    ensures
        (LoaderState {
            window_id: 0,
            pending: Seq::empty(),
            flush_requested: false,
            in_flight: Seq::empty(),
            resolved: Seq::empty(),
        }).wf(),
        state.after_load(key).wf(),
        state.after_load_many(keys).wf(),
        state.after_flush_request().wf(),
        state.after_flush().wf(),
        state.after_complete(window).wf(),
{
    lemma_load_keeps(state, key);
    lemma_burst(state, keys);
    lemma_flush_keeps(state);
    lemma_complete_keeps(state, window);
}

/// In every well-formed state the batches in flight are pairwise disjoint:
/// a key that one of them holds is in no other batch in flight, is not
/// pending in the open window and is not resolved. So at most one fetch in
/// flight is responsible for a key.
pub proof fn law_batches_in_flight_are_disjoint(state: LoaderState, i: int, j: int, key: i32)
    requires
        state.wf(),
        0 <= i < state.in_flight.len(),
        0 <= j < state.in_flight.len(),
        i != j,
        state.in_flight[i].keys.contains(key),
    ensures
        !state.in_flight[j].keys.contains(key),
        !state.pending.contains(key),
        !holds(state.resolved, key),
{
    assert(holds(state.in_flight, key));
}

/// A key whose window was flushed is not fetched again: a later request for
/// it, while its batch is in flight or after any fetch has ended, leaves the
/// open window as it is, makes no flush due, and gets the ticket that the
/// key had in its window.
pub proof fn law_key_in_flight_or_resolved_is_not_fetched_again(
    state: LoaderState,
    key: i32,
    ticket: Ticket,
    window: u64,
)
    requires
        state.wf(),
        state.pending.contains(key),
        state.issues(key, ticket),
    ensures
        holds(state.after_flush().in_flight, key),
        state.after_flush().after_load(key) == state.after_flush(),
        !state.after_flush().after_load(key).flushes(),
        state.after_flush().issues(key, ticket),
        state.after_flush().after_complete(window).taken(key),
        state.after_flush().after_complete(window).after_load(key) == state.after_flush().after_complete(
            window,
        ),
        !state.after_flush().after_complete(window).after_load(key).flushes(),
        state.after_flush().after_complete(window).issues(key, ticket),
{
    let flown = state.after_flush();
    lemma_flush_keeps(state);
    lemma_holds_push(state.in_flight, state.leaving(), key);
    assert(registered(state.pending, key) == state.pending);
    let last = state.in_flight.len() as int;
    assert(flown.in_flight[last] == state.leaving());
    assert(entry_of(flown.in_flight, key, ticket));
    lemma_complete_keeps(flown, window);
    law_completion_keeps_tickets(flown, window, key, ticket);
}

/// The end of a fetch changes no ticket: a key that was in flight or
/// resolved has the same ticket afterwards.
pub proof fn law_completion_keeps_tickets(state: LoaderState, window: u64, key: i32, ticket: Ticket)
    requires
        state.wf(),
        state.taken(key),
        state.issues(key, ticket),
    ensures
        state.after_complete(window).issues(key, ticket),
{
    let after = state.after_complete(window);
    lemma_complete_keeps(state, window);
    if state.in_flight_has(window) {
        let at = state.flight_index(window);
        assert(first_with(state.in_flight, window, at));
        lemma_holds_remove(state.in_flight, at, key);
        lemma_holds_push(state.resolved, state.in_flight[at], key);
        if holds(state.in_flight, key) {
            let i = choose|i: int|
                0 <= i < state.in_flight.len() && (#[trigger] state.in_flight[i]).window
                    == ticket.window && ticket.slot < state.in_flight[i].keys.len()
                    && state.in_flight[i].keys[ticket.slot as int] == key;
            assert(state.in_flight[i].keys.contains(key));
            if i == at {
                assert(after.resolved[state.resolved.len() as int] == state.in_flight[at]);
                assert(entry_of(after.resolved, key, ticket));
            } else {
                let moved = if i < at { i } else { i - 1 };
                assert(after.in_flight[moved] == state.in_flight[i]);
                assert(after.in_flight[moved].keys.contains(key));
                assert(entry_of(after.in_flight, key, ticket));
            }
        } else {
            let i = choose|i: int|
                0 <= i < state.resolved.len() && (#[trigger] state.resolved[i]).window
                    == ticket.window && ticket.slot < state.resolved[i].keys.len()
                    && state.resolved[i].keys[ticket.slot as int] == key;
            assert(after.resolved[i] == state.resolved[i]);
            assert(entry_of(after.resolved, key, ticket));
        }
    }
}

/// Requests for one key, however many, leave one entry for it: every caller
/// of the burst holds the same ticket. Where the key was neither in flight
/// nor resolved, a window that was empty then holds that key and nothing
/// else, one flush hands it out and the next flush hands out nothing; where
/// it was, the window stays empty and no fetch is started.
pub proof fn law_same_key_shares_one_entry(
    state: LoaderState,
    requests: Seq<i32>,
    key: i32,
    i: int,
    j: int,
    first: Ticket,
    second: Ticket,
)
    requires
        state.wf(),
        state.pending.len() == 0,
        forall|n: int| 0 <= n < requests.len() ==> requests[n] == key,
        0 <= i < requests.len(),
        0 <= j < requests.len(),
        state.after_load_many(requests.take(i)).issues(key, first),
        state.after_load_many(requests.take(j)).issues(key, second),
    ensures
        first == second,
        !state.taken(key) ==> state.after_load_many(requests).pending == seq![key],
        !state.taken(key) ==> state.after_load_many(requests).flushes(),
        !state.taken(key) ==> !state.after_load_many(requests).after_flush().flushes(),
        state.taken(key) ==> !state.after_load_many(requests).flushes(),
{
    let after = state.after_load_many(requests);
    lemma_burst(state, requests);
    assert(requests[i] == key && requests[j] == key);
    lemma_ticket_unique(after, key, first, second);
    let pending = after.pending;
    if state.taken(key) {
        if pending.len() > 0 {
            assert(pending.contains(pending[0]));
            assert(requests.contains(pending[0]));
        }
    } else {
        assert(pending.contains(key)) by {
            assert(requests[0] == key);
            assert(requests.contains(key));
        }
        assert(pending.len() == 1) by {
            if pending.len() > 1 {
                assert(pending.contains(pending[0]));
                assert(pending.contains(pending[1]));
                assert(requests.contains(pending[0]));
                assert(requests.contains(pending[1]));
            }
        }
        assert(pending =~= seq![key]);
    }
}

/// In any burst, on any well-formed loader, two requests for the same key
/// get the same ticket, whatever was requested before, between or after
/// them: the callers share one entry and so one resolution.
pub proof fn law_equal_keys_get_equal_tickets(
    state: LoaderState,
    requests: Seq<i32>,
    i: int,
    j: int,
    first: Ticket,
    second: Ticket,
)
    requires
        state.wf(),
        0 <= i < requests.len(),
        0 <= j < requests.len(),
        requests[i] == requests[j],
        state.after_load_many(requests.take(i)).issues(requests[i], first),
        state.after_load_many(requests.take(j)).issues(requests[j], second),
    ensures
        first == second,
{
    lemma_burst(state, requests);
    lemma_ticket_unique(state.after_load_many(requests), requests[i], first, second);
}

/// A burst leaves each distinct key in the window once: on an empty window
/// the batch-to-be holds exactly the requested keys that are neither in
/// flight nor resolved, and where none of the requested keys is, it carries
/// as many keys as the burst has distinct ones.
pub proof fn law_batch_holds_each_distinct_key_once(state: LoaderState, requests: Seq<i32>)
    requires
        state.wf(),
        state.pending.len() == 0,
    ensures
        state.after_load_many(requests).pending.no_duplicates(),
        forall|key: i32| #[trigger]
            state.after_load_many(requests).pending.contains(key) <==> requests.contains(key)
                && !state.taken(key),
        (forall|key: i32| requests.contains(key) ==> !state.taken(key)) ==> state.after_load_many(
            requests,
        ).pending.to_set() == requests.to_set() && state.after_load_many(requests).pending.len()
            == requests.to_set().len(),
{
    let pending = state.after_load_many(requests).pending;
    lemma_burst(state, requests);
    assert forall|key: i32| #[trigger] pending.contains(key) <==> requests.contains(key)
        && !state.taken(key) by {
        if state.pending.contains(key) {
            assert(state.pending.len() > 0);
        }
    }
    if forall|key: i32| requests.contains(key) ==> !state.taken(key) {
        assert(pending.to_set() =~= requests.to_set());
        pending.unique_seq_to_set();
    }
}

/// A key that is first requested after a window was flushed is not added to
/// the batch that left: it becomes the first key of the new window, under a
/// ticket that does not belong to the flushed window, and the next flush
/// hands it out in a batch of its own.
pub proof fn law_late_request_gets_new_batch(state: LoaderState, late: i32, ticket: Ticket)
    requires
        state.wf(),
        state.flushes(),
        !state.pending.contains(late),
        !state.taken(late),
        state.after_flush().issues(late, ticket),
    ensures
        state.after_flush().window_id != state.window_id,
        ticket.window == state.after_flush().window_id,
        ticket.window != state.window_id,
        ticket.slot == 0,
        state.after_flush().after_load(late).pending == seq![late],
        state.after_flush().after_load(late).flushes(),
        state.after_flush().after_load(late).leaving().keys == seq![late],
{
    let opened = state.after_flush();
    lemma_holds_push(state.in_flight, state.leaving(), late);
    let after = registered(opened.pending, late);
    assert(after =~= seq![late]);
    lemma_slot_unique(after, late, 0);
}

/// One flush is scheduled per window: once the scheduler has been asked, no
/// flush is due again, however many requests follow, until the window is
/// flushed; and the first new key after a flush makes one due again.
pub proof fn law_one_flush_per_window(state: LoaderState, requests: Seq<i32>, late: i32)
    requires
        state.wf(),
        !state.pending.contains(late),
        !state.taken(late),
    ensures
        !state.after_flush_request().flush_due(),
        !state.after_flush_request().after_load_many(requests).after_flush_request().flush_due(),
        state.flush_requested ==> !state.after_load_many(requests).flush_due(),
        !state.after_flush().flush_due(),
        state.after_flush().after_load(late).flush_due(),
{
    lemma_burst(state, requests);
    lemma_burst(state.after_flush_request(), requests);
    let opened = state.after_flush();
    lemma_holds_push(state.in_flight, state.leaving(), late);
    lemma_registered_keeps(opened.pending, late);
}

/// A request for no keys changes nothing: the loader is as it was, and a
/// window that would not have been fetched is still not fetched.
pub proof fn law_empty_request_starts_no_fetch(state: LoaderState)
    ensures
        state.after_load_many(Seq::empty()) == state,
        !state.flushes() ==> !state.after_load_many(Seq::empty()).flushes(),
        !state.flushes() ==> state.after_load_many(Seq::empty()).after_flush() == state,
{
}

/// Every caller of a burst is answered for the key it asked for: where
/// `resolutions` resolves the batch-to-be key by key, the place that the
/// ticket of the `j`-th request names holds the resolution of the `j`-th
/// requested key, whatever was requested before or after it. This is said of
/// keys that are neither in flight nor resolved; the others keep the ticket
/// of the batch that holds them.
pub proof fn law_each_caller_gets_its_key<V, E>(
    state: LoaderState,
    requests: Seq<i32>,
    outcome: &Outcome<V, E>,
    resolutions: Seq<Resolution<V, E>>,
    j: int,
    ticket: Ticket,
)
    requires
        state.wf(),
        0 <= j < requests.len(),
        !state.taken(requests[j]),
        state.after_load_many(requests.take(j)).issues(requests[j], ticket),
        resolutions.len() == state.after_load_many(requests).pending.len(),
        forall|i: int|
            0 <= i < resolutions.len() ==> #[trigger] resolutions[i] == resolved(
                outcome,
                state.after_load_many(requests).pending[i],
            ),
    ensures
        ticket.window == state.window_id,
        0 <= ticket.slot < resolutions.len(),
        resolutions[ticket.slot as int] == resolved(outcome, requests[j]),
{
    let after = state.after_load_many(requests);
    lemma_burst(state, requests);
    assert(after.pending.contains(requests[j])) by {
        assert(requests.contains(requests[j]));
    }
    assert(after.issues(requests[j], ticket));
    assert(registered(after.pending, requests[j]) == after.pending);
    let slot = after.pending.index_of(requests[j]);
    assert(0 <= slot < after.pending.len() && after.pending[slot] == requests[j]);
}

/// A failed fetch fails every key alike, and a key that a successful fetch
/// has no value for is answered as absent, not as failed.
pub proof fn law_failure_is_shared_and_absence_is_no_failure<V, E>(
    outcome: &Outcome<V, E>,
    first: i32,
    second: i32,
)
    ensures
        outcome matches Outcome::Failed(error) ==> resolved(outcome, first) == Resolution::<
            V,
            E,
        >::Failed(error) && resolved(outcome, second) == resolved(outcome, first),
        outcome matches Outcome::Fetched(found) ==> (!found@.contains_key(first) <==> resolved(
            outcome,
            first,
        ) == Resolution::<V, E>::Absent),
        outcome matches Outcome::Fetched(found) ==> !(resolved(outcome, first) is Failed),
{
}

} // verus!
