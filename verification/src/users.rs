//! The user records that the loader serves, and the backing fetch that
//! makes them.

use std::collections::HashMap;
use vstd::prelude::*;
use vstd::string::StringExecFns;

verus! {

/// One user.
#[derive(Debug)]
pub struct User {
    pub id: i32,
    pub name: String,
}

/// The character of one decimal digit.
pub open spec fn digit_char(d: nat) -> char {
    if d == 0 {
        '0'
    } else if d == 1 {
        '1'
    } else if d == 2 {
        '2'
    } else if d == 3 {
        '3'
    } else if d == 4 {
        '4'
    } else if d == 5 {
        '5'
    } else if d == 6 {
        '6'
    } else if d == 7 {
        '7'
    } else if d == 8 {
        '8'
    } else {
        '9'
    }
}

/// A natural number in decimal, without leading zeros.
pub open spec fn decimal_digits(n: nat) -> Seq<char>
    decreases n,
{
    if n < 10 {
        seq![digit_char(n)]
    } else {
        decimal_digits(n / 10).push(digit_char(n % 10))
    }
}

/// An integer in decimal, with a minus sign in front of a negative one.
pub open spec fn decimal(i: int) -> Seq<char> {
    if i < 0 {
        seq!['-'] + decimal_digits((-i) as nat)
    } else {
        decimal_digits(i as nat)
    }
}

/// The name of the user with number `id`: the word `User`, a space and the
/// number in decimal.
pub open spec fn user_name(id: i32) -> Seq<char> {
    seq!['U', 's', 'e', 'r', ' '] + decimal(id as int)
}

/// `to_string` on an `i32`: the number in decimal, as `Display` writes it, with a
/// minus sign in front of a negative number and no other padding. Believed,
/// not proved.
#[verifier::external_body]
fn decimal_string(i: i32) -> (text: String)
    ensures
        text@ == decimal(i as int),
{
    i.to_string()
}

/// The user with number `id`.
pub fn user_for(id: i32) -> (user: User)
    ensures
        user.id == id,
        user.name@ == user_name(id),
{
    let number = decimal_string(id);
    proof {
        reveal_strlit("User ");
        assert("User "@ =~= seq!['U', 's', 'e', 'r', ' ']);
    }
    User { id, name: String::from_str("User ").concat(number.as_str()) }
}

/// The backing fetch: a mapping that holds, for each key of `keys` and for
/// no other, the user with that number.
pub fn load_users(keys: &Vec<i32>) -> (users: HashMap<i32, User>)
    ensures
        users@.dom() =~= keys@.to_set(),
        forall|key: i32| #[trigger]
            users@.contains_key(key) ==> users@[key].id == key && users@[key].name@ == user_name(
                key,
            ),
{
    broadcast use vstd::std_specs::hash::group_hash_axioms;

    let mut users: HashMap<i32, User> = HashMap::new();
    let mut i: usize = 0;
    while i < keys.len()
        invariant
            i <= keys@.len(),
            users@.dom() =~= keys@.take(i as int).to_set(),
            forall|key: i32| #[trigger]
                users@.contains_key(key) ==> users@[key].id == key && users@[key].name@
                    == user_name(key),
        decreases keys@.len() - i,
    {
        let id: i32 = keys[i];
        users.insert(id, user_for(id));
        proof {
            let before = keys@.take(i as int);
            let after = keys@.take(i + 1);
            assert(after =~= before.push(id));
            assert forall|key: i32| after.to_set().contains(key) <==> (before.to_set().contains(key)
                || key == id) by {
                if before.contains(key) {
                    let j = before.index_of(key);
                    assert(after[j] == key);
                }
                if key == id {
                    assert(after[i as int] == key);
                }
            }
        }
        i += 1;
    }
    assert(keys@.take(keys@.len() as int) =~= keys@);
    users
}

} // verus!
