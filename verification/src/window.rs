//! The open batching window: the distinct keys requested so far, in the
//! order in which each was first seen.

use vstd::prelude::*;

verus! {

/// The key list of a window after one more request for `key`: a key that is
/// already pending is not added again.
pub open spec fn registered(keys: Seq<i32>, key: i32) -> Seq<i32> {
    if keys.contains(key) {
        keys
    } else {
        keys.push(key)
    }
}

/// The key list of a window after the requests of `requests`, taken from
/// left to right.
pub open spec fn registered_all(keys: Seq<i32>, requests: Seq<i32>) -> Seq<i32>
    decreases requests.len(),
{
    if requests.len() == 0 {
        keys
    } else {
        registered(registered_all(keys, requests.drop_last()), requests.last())
    }
}

/// The place of `key` in a key list that holds it.
pub open spec fn slot_of(keys: Seq<i32>, key: i32) -> int {
    keys.index_of(key)
}

/// In a list without duplicates a key's place is the only index that holds it.
pub proof fn lemma_slot_unique(keys: Seq<i32>, key: i32, i: int)
    requires
        keys.no_duplicates(),
        0 <= i < keys.len(),
        keys[i] == key,
    ensures
        slot_of(keys, key) == i,
{
    let j = keys.index_of(key);
    assert(0 <= j < keys.len() && keys[j] == key);
}

/// Registering a key keeps the list free of duplicates and keeps every key
/// that was pending at its place.
pub proof fn lemma_registered_keeps(keys: Seq<i32>, key: i32)
    requires
        keys.no_duplicates(),
    ensures
        registered(keys, key).no_duplicates(),
        registered(keys, key).contains(key),
        keys.len() <= registered(keys, key).len(),
        forall|i: int| 0 <= i < keys.len() ==> #[trigger] registered(keys, key)[i] == keys[i],
        forall|k: i32| keys.contains(k) ==> #[trigger] registered(keys, key).contains(k),
        forall|k: i32| keys.contains(k) ==> #[trigger] slot_of(registered(keys, key), k) == slot_of(keys, k),
{
    let after = registered(keys, key);
    if keys.contains(key) {
    } else {
        assert(after[keys.len() as int] == key);
        assert forall|i: int, j: int| 0 <= i < after.len() && 0 <= j < after.len() && i != j
            implies after[i] != after[j] by {
            if i < keys.len() && j < keys.len() {
            } else if i < keys.len() {
                assert(keys.contains(keys[i]));
            } else {
                assert(keys.contains(keys[j]));
            }
        }
    }
    assert forall|k: i32| keys.contains(k) implies #[trigger] after.contains(k) by {
        let i = keys.index_of(k);
        assert(after[i] == k);
    }
    assert forall|k: i32| keys.contains(k) implies #[trigger] slot_of(after, k) == slot_of(keys, k) by {
        let i = keys.index_of(k);
        assert(after[i] == k);
        lemma_slot_unique(after, k, i);
    }
}

/// The distinct keys of one batching window, in first-seen order.
pub struct Window {
    keys: Vec<i32>,
}

impl Window {
    /// The pending keys, oldest first.
    pub closed spec fn view(&self) -> Seq<i32> {
        self.keys@
    }

    /// No key is pending twice.
    pub open spec fn wf(&self) -> bool {
        self@.no_duplicates()
    }

    /// A window with no key pending.
    pub fn new() -> (w: Window)
        ensures
            w.wf(),
            w@ == Seq::<i32>::empty(),
    {
        Window { keys: Vec::new() }
    }

    /// The number of distinct keys pending.
    pub fn len(&self) -> (n: usize)
        ensures
            n == self@.len(),
    {
        self.keys.len()
    }

    /// Whether no key is pending.
    pub fn is_empty(&self) -> (b: bool)
        ensures
            b == (self@.len() == 0),
    {
        self.keys.len() == 0
    }

    /// The place of `key` among the pending keys, if it is pending.
    pub fn position(&self, key: i32) -> (found: Option<usize>)
        requires
            self.wf(),
        ensures
            found is Some <==> self@.contains(key),
            found is Some ==> found.unwrap() as int == slot_of(self@, key),
    {
        let mut i: usize = 0;
        while i < self.keys.len()
            invariant
                self.wf(),
                i <= self.keys@.len(),
                forall|j: int| 0 <= j < i ==> self.keys@[j] != key,
            decreases self.keys@.len() - i,
        {
            if self.keys[i] == key {
                proof {
                    lemma_slot_unique(self@, key, i as int);
                }
                return Some(i);
            }
            i += 1;
        }
        None
    }

    /// Registers a request for `key` and returns the place of its pending
    /// entry: the existing one if the key is already pending, else a new one
    /// behind all others.
    pub fn register(&mut self, key: i32) -> (slot: usize)
        requires
            old(self).wf(),
        ensures
            final(self).wf(),
            final(self)@ == registered(old(self)@, key),
            slot as int == slot_of(final(self)@, key),
            slot < final(self)@.len(),
            final(self)@[slot as int] == key,
    {
        proof {
            lemma_registered_keeps(self@, key);
        }
        match self.position(key) {
            Some(i) => i,
            None => {
                let n = self.keys.len();
                self.keys.push(key);
                proof {
                    lemma_slot_unique(self@, key, n as int);
                }
                n
            },
        }
    }

    /// Hands out the pending keys and leaves the window empty.
    pub fn take(&mut self) -> (keys: Vec<i32>)
        requires
            old(self).wf(),
        ensures
            final(self).wf(),
            final(self)@ == Seq::<i32>::empty(),
            keys@ == old(self)@,
    {
        let mut out: Vec<i32> = Vec::new();
        std::mem::swap(&mut self.keys, &mut out);
        out
    }
}

} // verus!
