//! The result dispatcher: from the outcome of one backing fetch to the
//! resolution of every key of the batch.

use crate::loader::Ticket;
use std::collections::HashMap;
use vstd::prelude::*;

verus! {

/// What one backing fetch came back with.
pub enum Outcome<V, E> {
    /// The values found, by key. A key of the batch that is missing here had
    /// no value.
    Fetched(HashMap<i32, V>),
    /// The fetch as a whole failed.
    Failed(E),
}

/// What a caller waiting on one key receives.
pub enum Resolution<'a, V, E> {
    /// The key's value.
    Found(&'a V),
    /// The fetch succeeded and had no value for the key.
    Absent,
    /// The fetch of the key's batch failed.
    Failed(&'a E),
}

/// The resolution that `outcome` gives to `key`.
pub open spec fn resolved<'a, V, E>(outcome: &'a Outcome<V, E>, key: i32) -> Resolution<'a, V, E> {
    match outcome {
        Outcome::Fetched(found) => if found@.contains_key(key) {
            Resolution::Found(&found@[key])
        } else {
            Resolution::Absent
        },
        Outcome::Failed(error) => Resolution::Failed(error),
    }
}

/// Resolves every key of a flushed batch, in the batch's order. A fetch that
/// failed fails every key of the batch alike; a fetch that succeeded gives
/// each key its value, or `Absent` where the mapping has none. Keys of the
/// mapping that the batch did not ask for are not looked at.
pub fn dispatch<'a, V, E>(keys: &Vec<i32>, outcome: &'a Outcome<V, E>) -> (resolutions: Vec<
    Resolution<'a, V, E>,
>)
    ensures
        resolutions@.len() == keys@.len(),
        forall|i: int|
            0 <= i < keys@.len() ==> #[trigger] resolutions@[i] == resolved(outcome, keys@[i]),
        outcome matches Outcome::Failed(error) ==> forall|i: int|
            0 <= i < keys@.len() ==> #[trigger] resolutions@[i] == Resolution::<V, E>::Failed(error),
        outcome matches Outcome::Fetched(found) ==> forall|i: int|
            0 <= i < keys@.len() && !found@.contains_key(keys@[i]) ==> #[trigger] resolutions@[i]
                == Resolution::<V, E>::Absent,
{
    broadcast use vstd::std_specs::hash::group_hash_axioms;

    let mut resolutions: Vec<Resolution<'a, V, E>> = Vec::new();
    let mut i: usize = 0;
    while i < keys.len()
        invariant
            i <= keys@.len(),
            resolutions@.len() == i,
            forall|j: int|
                0 <= j < i ==> #[trigger] resolutions@[j] == resolved(outcome, keys@[j]),
        decreases keys@.len() - i,
    {
        let key: i32 = keys[i];
        let resolution = match outcome {
            Outcome::Fetched(found) => match found.get(&key) {
                Some(value) => Resolution::Found(value),
                None => Resolution::Absent,
            },
            Outcome::Failed(error) => Resolution::Failed(error),
        };
        resolutions.push(resolution);
        i += 1;
    }
    resolutions
}

/// What the holder of `ticket` receives from the dispatched batch of window
/// `window`: the resolution at the ticket's place, or nothing where the
/// ticket belongs to another window.
pub fn claim<'a, V, E>(ticket: Ticket, window: u64, resolutions: &Vec<Resolution<'a, V, E>>) -> (answer:
    Option<Resolution<'a, V, E>>)
    ensures
        answer is Some <==> ticket.window == window && ticket.slot < resolutions@.len(),
        answer is Some ==> answer.unwrap() == resolutions@[ticket.slot as int],
{
    if ticket.window != window || ticket.slot >= resolutions.len() {
        return None;
    }
    let answer = match &resolutions[ticket.slot] {
        Resolution::Found(value) => Resolution::Found(*value),
        Resolution::Absent => Resolution::Absent,
        Resolution::Failed(error) => Resolution::Failed(*error),
    };
    Some(answer)
}

/// The values that a mapping holds for `keys`, one per request and in the
/// order of the requests.
pub open spec fn in_request_order<'a, V>(keys: Seq<i32>, found: Map<i32, V>) -> Seq<Option<&'a V>> {
    Seq::new(
        keys.len(),
        |i: int|
            if found.contains_key(keys[i]) {
                Some(&found[keys[i]])
            } else {
                None
            },
    )
}

/// The answer to a request for many keys, given the outcome of the fetch
/// that served it. A request for no keys is answered with no values, whatever
/// the outcome. Otherwise a failed fetch fails the request, and a fetch that
/// succeeded answers it with one entry per requested key, in the order of
/// the request: the key's value, or `None` where the mapping has none.
pub fn collect_many<'a, V, E>(keys: &Vec<i32>, outcome: &'a Outcome<V, E>) -> (answer: Result<
    Vec<Option<&'a V>>,
    &'a E,
>)
    ensures
        keys@.len() == 0 ==> (answer matches Ok(values) && values@.len() == 0),
        keys@.len() > 0 ==> (outcome matches Outcome::Failed(error) ==> (answer matches Err(failure)
            && failure == error)),
        outcome matches Outcome::Fetched(found) ==> (answer matches Ok(values) && values@
            == in_request_order(keys@, found@)),
{
    broadcast use vstd::std_specs::hash::group_hash_axioms;

    let mut values: Vec<Option<&'a V>> = Vec::new();
    if keys.len() == 0 {
        proof {
            if let Outcome::Fetched(found) = outcome {
                assert(values@ =~= in_request_order(keys@, found@));
            }
        }
        return Ok(values);
    }
    match outcome {
        Outcome::Failed(error) => Err(error),
        Outcome::Fetched(found) => {
            let mut i: usize = 0;
            while i < keys.len()
                invariant
                    i <= keys@.len(),
                    values@.len() == i,
                    forall|j: int|
                        0 <= j < i ==> #[trigger] values@[j] == in_request_order(keys@, found@)[j],
                decreases keys@.len() - i,
            {
                let key: i32 = keys[i];
                values.push(found.get(&key));
                i += 1;
            }
            assert(values@ =~= in_request_order(keys@, found@));
            Ok(values)
        },
    }
}

} // verus!
