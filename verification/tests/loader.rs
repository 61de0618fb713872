use batch_loader::dispatch::{claim, collect_many, dispatch, Outcome, Resolution};
use batch_loader::loader::{following_window, Loader, Ticket};
use batch_loader::users::{load_users, user_for, User};
use std::collections::HashMap;

fn name_of(resolution: &Option<Resolution<'_, User, String>>) -> String {
    match resolution {
        Some(Resolution::Found(user)) => user.name.clone(),
        Some(Resolution::Absent) => String::from("<absent>"),
        Some(Resolution::Failed(error)) => format!("<failed: {}>", error),
        None => String::from("<pending>"),
    }
}

#[test]
fn new_loader_has_nothing_pending() {
    let mut loader = Loader::new();
    assert_eq!(loader.window_id(), 0);
    assert_eq!(loader.pending_len(), 0);
    assert!(loader.flush().is_none());
    assert_eq!(loader.window_id(), 0);
}

#[test]
fn same_key_in_one_burst_is_fetched_once() {
    let mut loader = Loader::new();
    let mut tickets: Vec<Ticket> = Vec::new();
    for _ in 0..5 {
        tickets.push(loader.load_one(7));
    }
    assert_eq!(loader.pending_len(), 1);
    let batch = loader.flush().unwrap();
    assert_eq!(batch.keys, vec![7]);
    assert_eq!(batch.window, 0);
    assert!(loader.flush().is_none());
    for ticket in &tickets {
        assert_eq!(*ticket, Ticket { window: 0, slot: 0 });
    }
    let outcome: Outcome<User, String> = Outcome::Fetched(load_users(&batch.keys));
    let resolutions = dispatch(&batch.keys, &outcome);
    for ticket in &tickets {
        assert_eq!(name_of(&claim(*ticket, batch.window, &resolutions)), "User 7");
    }
}

#[test]
fn load_many_answers_in_request_order() {
    let mut loader = Loader::new();
    let keys = vec![3, 1, 2];
    let tickets = loader.load_many(&keys);
    let batch = loader.flush().unwrap();
    assert_eq!(batch.keys, vec![3, 1, 2]);
    let mut found: HashMap<i32, User> = HashMap::new();
    found.insert(1, User { id: 1, name: String::from("User 1") });
    found.insert(2, User { id: 2, name: String::from("User 2") });
    found.insert(3, User { id: 3, name: String::from("User 3") });
    let outcome: Outcome<User, String> = Outcome::Fetched(found);
    let resolutions = dispatch(&batch.keys, &outcome);
    let names: Vec<String> =
        tickets.iter().map(|t| name_of(&claim(*t, batch.window, &resolutions))).collect();
    assert_eq!(names, vec!["User 3", "User 1", "User 2"]);

    let answer = collect_many(&keys, &outcome);
    let values = answer.ok().unwrap();
    let names: Vec<&str> = values.iter().map(|v| v.unwrap().name.as_str()).collect();
    assert_eq!(names, vec!["User 3", "User 1", "User 2"]);
}

#[test]
fn load_many_with_repeated_keys_reuses_entries() {
    let mut loader = Loader::new();
    let first = loader.load_one(2);
    let tickets = loader.load_many(&vec![5, 2, 5, 9, 2]);
    assert_eq!(first, Ticket { window: 0, slot: 0 });
    let slots: Vec<usize> = tickets.iter().map(|t| t.slot).collect();
    assert_eq!(slots, vec![1, 0, 1, 2, 0]);
    let batch = loader.flush().unwrap();
    assert_eq!(batch.keys, vec![2, 5, 9]);
    let outcome: Outcome<User, String> = Outcome::Fetched(load_users(&batch.keys));
    let resolutions = dispatch(&batch.keys, &outcome);
    let names: Vec<String> =
        tickets.iter().map(|t| name_of(&claim(*t, batch.window, &resolutions))).collect();
    assert_eq!(names, vec!["User 5", "User 2", "User 5", "User 9", "User 2"]);
}

#[test]
fn key_after_flush_gets_a_batch_of_its_own() {
    let mut loader = Loader::new();
    let early = loader.load_one(1);
    let first = loader.flush().unwrap();
    let late = loader.load_one(2);
    assert_eq!(first.keys, vec![1]);
    assert_eq!(first.window, 0);
    assert_eq!(early, Ticket { window: 0, slot: 0 });
    assert_eq!(late, Ticket { window: 1, slot: 0 });
    let second = loader.flush().unwrap();
    assert_eq!(second.keys, vec![2]);
    assert_eq!(second.window, 1);
    assert_eq!(loader.window_id(), 2);

    let outcome: Outcome<User, String> = Outcome::Fetched(load_users(&first.keys));
    let resolutions = dispatch(&first.keys, &outcome);
    assert_eq!(name_of(&claim(early, first.window, &resolutions)), "User 1");
    assert!(claim(late, first.window, &resolutions).is_none());
}

#[test]
fn key_in_flight_is_not_fetched_again() {
    let mut loader = Loader::new();
    let first = loader.load_one(4);
    let batch = loader.flush().unwrap();
    assert_eq!(batch.keys, vec![4]);
    assert_eq!(loader.in_flight_len(), 1);
    let again = loader.load_one(4);
    assert_eq!(again, first);
    assert_eq!(again, Ticket { window: 0, slot: 0 });
    assert_eq!(loader.pending_len(), 0);
    assert!(!loader.request_flush());
    assert!(loader.flush().is_none());
    assert_eq!(loader.window_id(), 1);
}

#[test]
fn resolved_key_is_not_fetched_again() {
    let mut loader = Loader::new();
    let tickets = loader.load_many(&vec![4, 6]);
    let batch = loader.flush().unwrap();
    assert!(loader.complete(batch.window));
    assert_eq!(loader.in_flight_len(), 0);
    let again = loader.load_many(&vec![6, 4, 8]);
    assert_eq!(again[0], tickets[1]);
    assert_eq!(again[1], tickets[0]);
    assert_eq!(again[2], Ticket { window: 1, slot: 0 });
    let next = loader.flush().unwrap();
    assert_eq!(next.keys, vec![8]);
    assert_eq!(next.window, 1);
    let outcome: Outcome<User, String> = Outcome::Fetched(load_users(&batch.keys));
    let resolutions = dispatch(&batch.keys, &outcome);
    assert_eq!(name_of(&claim(again[0], batch.window, &resolutions)), "User 6");
    assert_eq!(name_of(&claim(again[1], batch.window, &resolutions)), "User 4");
    assert!(claim(again[2], batch.window, &resolutions).is_none());
}

#[test]
fn batches_in_flight_share_no_key() {
    let mut loader = Loader::new();
    loader.load_many(&vec![1, 2, 3]);
    let first = loader.flush().unwrap();
    loader.load_many(&vec![3, 4, 1, 5]);
    let second = loader.flush().unwrap();
    loader.load_many(&vec![5, 2, 6]);
    let third = loader.flush().unwrap();
    assert_eq!(first.keys, vec![1, 2, 3]);
    assert_eq!(second.keys, vec![4, 5]);
    assert_eq!(third.keys, vec![6]);
    assert_eq!(loader.in_flight_len(), 3);
}

#[test]
fn complete_ends_one_flight() {
    let mut loader = Loader::new();
    assert!(!loader.complete(0));
    loader.load_one(1);
    let first = loader.flush().unwrap();
    loader.load_one(2);
    let second = loader.flush().unwrap();
    assert_eq!(loader.in_flight_len(), 2);
    assert!(!loader.complete(7));
    assert!(loader.complete(second.window));
    assert_eq!(loader.in_flight_len(), 1);
    assert!(!loader.complete(second.window));
    assert!(loader.complete(first.window));
    assert_eq!(loader.in_flight_len(), 0);
    assert_eq!(loader.load_one(1), Ticket { window: 0, slot: 0 });
    assert_eq!(loader.load_one(2), Ticket { window: 1, slot: 0 });
    assert!(loader.flush().is_none());
}

#[test]
fn failed_fetch_fails_every_key_of_the_batch() {
    let mut loader = Loader::new();
    let a = loader.load_one(10);
    let b = loader.load_one(20);
    let batch = loader.flush().unwrap();
    let outcome: Outcome<User, String> = Outcome::Failed(String::from("store is down"));
    let resolutions = dispatch(&batch.keys, &outcome);
    assert_eq!(resolutions.len(), 2);
    assert_eq!(name_of(&claim(a, batch.window, &resolutions)), "<failed: store is down>");
    assert_eq!(name_of(&claim(b, batch.window, &resolutions)), "<failed: store is down>");
    match collect_many(&vec![10, 20], &outcome) {
        Err(error) => assert_eq!(error, "store is down"),
        Ok(_) => panic!("a failed fetch must fail the request"),
    }
}

#[test]
fn failure_of_one_batch_does_not_reach_the_next() {
    let mut loader = Loader::new();
    let a = loader.load_one(1);
    let first = loader.flush().unwrap();
    let b = loader.load_one(2);
    let second = loader.flush().unwrap();
    let failed: Outcome<User, String> = Outcome::Failed(String::from("timeout"));
    let fine: Outcome<User, String> = Outcome::Fetched(load_users(&second.keys));
    let first_resolutions = dispatch(&first.keys, &failed);
    let second_resolutions = dispatch(&second.keys, &fine);
    assert_eq!(name_of(&claim(a, first.window, &first_resolutions)), "<failed: timeout>");
    assert_eq!(name_of(&claim(b, second.window, &second_resolutions)), "User 2");
    assert!(claim(b, first.window, &first_resolutions).is_none());
}

#[test]
fn missing_key_resolves_as_absent() {
    let mut loader = Loader::new();
    let tickets = loader.load_many(&vec![1, 2]);
    let batch = loader.flush().unwrap();
    let mut found: HashMap<i32, User> = HashMap::new();
    found.insert(2, user_for(2));
    let outcome: Outcome<User, String> = Outcome::Fetched(found);
    let resolutions = dispatch(&batch.keys, &outcome);
    assert!(matches!(resolutions[0], Resolution::Absent));
    assert!(matches!(resolutions[1], Resolution::Found(_)));
    assert_eq!(name_of(&claim(tickets[0], batch.window, &resolutions)), "<absent>");
    assert_eq!(name_of(&claim(tickets[1], batch.window, &resolutions)), "User 2");
    let values = collect_many(&vec![1, 2, 1], &outcome).ok().unwrap();
    assert!(values[0].is_none());
    assert_eq!(values[1].unwrap().name, "User 2");
    assert!(values[2].is_none());
}

#[test]
fn unrequested_key_in_mapping_is_ignored() {
    let mut loader = Loader::new();
    loader.load_one(1);
    let batch = loader.flush().unwrap();
    let outcome: Outcome<User, String> = Outcome::Fetched(load_users(&vec![1, 99]));
    let resolutions = dispatch(&batch.keys, &outcome);
    assert_eq!(resolutions.len(), 1);
    assert!(matches!(resolutions[0], Resolution::Found(user) if user.id == 1));
}

#[test]
fn load_many_of_nothing_starts_no_fetch() {
    let mut loader = Loader::new();
    let tickets = loader.load_many(&Vec::new());
    assert!(tickets.is_empty());
    assert_eq!(loader.pending_len(), 0);
    assert!(loader.flush().is_none());
    assert_eq!(loader.window_id(), 0);
    let failed: Outcome<User, String> = Outcome::Failed(String::from("never asked"));
    let values = collect_many(&Vec::new(), &failed).ok().unwrap();
    assert!(values.is_empty());
    let fine: Outcome<User, String> = Outcome::Fetched(HashMap::new());
    assert!(collect_many(&Vec::new(), &fine).ok().unwrap().is_empty());
}

#[test]
fn thousand_requests_for_ten_keys_make_one_batch_of_ten() {
    let mut loader = Loader::new();
    let mut tickets: Vec<(i32, Ticket)> = Vec::new();
    for round in 0..100 {
        for key in 0..10 {
            let key = (key + round) % 10;
            tickets.push((key, loader.load_one(key)));
        }
    }
    assert_eq!(tickets.len(), 1000);
    assert_eq!(loader.pending_len(), 10);
    let batch = loader.flush().unwrap();
    assert_eq!(batch.keys, vec![0, 1, 2, 3, 4, 5, 6, 7, 8, 9]);
    assert!(loader.flush().is_none());
    let outcome: Outcome<User, String> = Outcome::Fetched(load_users(&batch.keys));
    let resolutions = dispatch(&batch.keys, &outcome);
    for (key, ticket) in &tickets {
        assert_eq!(name_of(&claim(*ticket, batch.window, &resolutions)), format!("User {}", key));
    }
}

#[test]
fn claim_outside_the_batch_gives_nothing() {
    let outcome: Outcome<User, String> = Outcome::Fetched(load_users(&vec![1]));
    let resolutions = dispatch(&vec![1], &outcome);
    assert!(claim(Ticket { window: 0, slot: 1 }, 0, &resolutions).is_none());
    assert!(claim(Ticket { window: 3, slot: 0 }, 0, &resolutions).is_none());
    assert!(claim(Ticket { window: 0, slot: 0 }, 0, &resolutions).is_some());
}

#[test]
fn dispatch_of_no_keys_is_empty() {
    let outcome: Outcome<User, String> = Outcome::Failed(String::from("x"));
    assert!(dispatch(&Vec::new(), &outcome).is_empty());
}

#[test]
fn flush_is_due_once_per_window() {
    let mut loader = Loader::new();
    assert!(!loader.request_flush());
    loader.load_one(1);
    assert!(loader.request_flush());
    loader.load_one(2);
    loader.load_one(1);
    assert!(!loader.request_flush());
    loader.load_many(&vec![3, 4]);
    assert!(!loader.request_flush());
    let batch = loader.flush().unwrap();
    assert_eq!(batch.keys, vec![1, 2, 3, 4]);
    assert!(!loader.request_flush());
    loader.load_one(1);
    assert!(!loader.request_flush());
    loader.load_one(5);
    assert!(loader.request_flush());
    assert!(!loader.request_flush());
}

#[test]
fn load_many_of_nothing_makes_no_flush_due() {
    let mut loader = Loader::new();
    loader.load_many(&Vec::new());
    assert!(!loader.request_flush());
    assert!(loader.flush().is_none());
}

#[test]
fn window_numbers_count_up_and_start_again() {
    assert_eq!(following_window(0), 1);
    assert_eq!(following_window(41), 42);
    assert_eq!(following_window(u64::MAX - 1), u64::MAX);
    assert_eq!(following_window(u64::MAX), 0);
}
