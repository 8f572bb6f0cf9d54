//! The texts that the host composes.

use vstd::prelude::*;

verus! {

/// The character of a decimal digit.
pub open spec fn digit_char(d: nat) -> char {
    if d == 0 {
        '0'
    } else if d == 1 {
        '1'
    } else if d == 2 {
        '2'
    } else if d == 3 {
        '3'
    } else if d == 4 {
        '4'
    } else if d == 5 {
        '5'
    } else if d == 6 {
        '6'
    } else if d == 7 {
        '7'
    } else if d == 8 {
        '8'
    } else {
        '9'
    }
}

/// `n` in decimal, without sign or leading zeros.
pub open spec fn decimal(n: nat) -> Seq<char>
    decreases n,
{
    if n < 10 {
        seq![digit_char(n)]
    } else {
        decimal(n / 10) + seq![digit_char(n % 10)]
    }
}

/// Relies on `ToString` through `usize`'s `Display`: plain decimal digits,
/// no sign, no padding.
#[verifier::external_body]
fn decimal_string(n: usize) -> (r: String)
    ensures
        r@ == decimal(n as nat),
{
    n.to_string()
}

/// Told to everyone else when `name` joins.
pub open spec fn join_text(name: Seq<char>) -> Seq<char> {
    name + " has joined the server!"@
}

/// Told to everyone else when `name` leaves.
pub open spec fn leave_text(name: Seq<char>) -> Seq<char> {
    name + " has left the server :("@
}

/// A chat line `text` from `name`, as the others see it.
pub open spec fn chat_text(name: Seq<char>, text: Seq<char>) -> Seq<char> {
    name + ": "@ + text
}

/// The greeting for a newcomer who finds nobody else connected.
pub open spec fn lonely_greeting() -> Seq<char> {
    "Oh no! It looks like you're the only one here... Don't worry, i'm sure more people will join soon!"@
}

/// The private greeting for a newcomer, when `count` participants are
/// registered with the newcomer counted.
pub open spec fn greeting_text(count: nat) -> Seq<char> {
    if count > 1 {
        "Joined server with "@ + decimal(count) + " people!"@
    } else {
        lonely_greeting()
    }
}

/// Names separated by single spaces.
pub open spec fn space_joined(names: Seq<Seq<char>>) -> Seq<char>
    decreases names.len(),
{
    if names.len() == 0 {
        Seq::empty()
    } else if names.len() == 1 {
        names[0]
    } else {
        space_joined(names.drop_last()) + " "@ + names.last()
    }
}

/// The notice that `name` has joined.
pub fn join_notice(name: &str) -> (r: String)
    ensures
        r@ == join_text(name@),
{
    let mut r = String::from_str(name);
    r.append(" has joined the server!");
    r
}

/// The notice that `name` has left.
pub fn leave_notice(name: &str) -> (r: String)
    ensures
        r@ == leave_text(name@),
{
    let mut r = String::from_str(name);
    r.append(" has left the server :(");
    r
}

/// The chat line `text` from `name`.
pub fn chat_line(name: &str, text: &str) -> (r: String)
    ensures
        r@ == chat_text(name@, text@),
{
    let mut r = String::from_str(name);
    r.append(": ");
    r.append(text);
    r
}

/// The greeting for a newcomer when `count` participants are registered.
pub fn greeting(count: usize) -> (r: String)
    ensures
        r@ == greeting_text(count as nat),
{
    if count > 1 {
        let mut r = String::from_str("Joined server with ");
        let digits = decimal_string(count);
        r.append(digits.as_str());
        r.append(" people!");
        r
    } else {
        String::from_str(
            "Oh no! It looks like you're the only one here... Don't worry, i'm sure more people will join soon!",
        )
    }
}

/// The roster: the names separated by single spaces.
pub fn roster(names: &Vec<String>) -> (r: String)
    ensures
        r@ == space_joined(names@.map_values(|s: String| s@)),
{
    let ghost all = names@.map_values(|s: String| s@);
    let mut r = String::new();
    let mut i: usize = 0;
    while i < names.len()
        invariant
            0 <= i <= names@.len(),
            all == names@.map_values(|s: String| s@),
            r@ == space_joined(all.subrange(0, i as int)),
        decreases names@.len() - i,
    {
        let ghost before = all.subrange(0, i as int);
        let ghost after = all.subrange(0, i + 1);
        assert(after.drop_last() =~= before);
        if i > 0 {
            r.append(" ");
        }
        r.append(names[i].as_str());
        if i == 0 {
            assert(r@ =~= space_joined(after));
        }
        i = i + 1;
    }
    assert(all.subrange(0, i as int) =~= all);
    r
}

} // verus!
