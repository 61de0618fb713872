use batch_loader::users::{load_users, user_for};
use batch_loader::window::Window;

#[test]
fn user_name_is_the_word_and_the_number() {
    let user = user_for(3);
    assert_eq!(user.id, 3);
    assert_eq!(user.name, "User 3");
    assert_eq!(user_for(42).name, "User 42");
    assert_eq!(user_for(0).name, "User 0");
    assert_eq!(user_for(1000).name, "User 1000");
}

#[test]
fn user_name_of_negative_numbers() {
    assert_eq!(user_for(-5).name, "User -5");
    assert_eq!(user_for(i32::MIN).name, "User -2147483648");
    assert_eq!(user_for(i32::MAX).name, "User 2147483647");
}

#[test]
fn load_users_holds_each_key() {
    let users = load_users(&vec![3, 1, 2]);
    assert_eq!(users.len(), 3);
    for id in [1, 2, 3] {
        let user = users.get(&id).unwrap();
        assert_eq!(user.id, id);
        assert_eq!(user.name, format!("User {}", id));
    }
    assert!(users.get(&4).is_none());
}

#[test]
fn load_users_with_repeated_and_no_keys() {
    let users = load_users(&vec![7, 7, 7]);
    assert_eq!(users.len(), 1);
    assert_eq!(users.get(&7).unwrap().name, "User 7");
    assert!(load_users(&Vec::new()).is_empty());
}

#[test]
fn window_keeps_first_seen_order() {
    let mut window = Window::new();
    assert!(window.is_empty());
    assert_eq!(window.register(5), 0);
    assert_eq!(window.register(3), 1);
    assert_eq!(window.register(5), 0);
    assert_eq!(window.register(8), 2);
    assert_eq!(window.register(3), 1);
    assert_eq!(window.len(), 3);
    assert_eq!(window.position(8), Some(2));
    assert_eq!(window.position(9), None);
    assert_eq!(window.take(), vec![5, 3, 8]);
    assert!(window.is_empty());
    assert_eq!(window.register(8), 0);
}
