//! The store as its clients see it: a map from keys to values, and what each
//! operation does to it.

use vstd::prelude::*;

verus! {

/// What a store holds: the value of each key.
pub type Held = Map<Seq<char>, Seq<char>>;

/// What is held after `key` is set to `value`.
pub open spec fn after_set(held: Held, key: Seq<char>, value: Seq<char>) -> Held {
    held.insert(key, value)
}

/// What `get` answers for `key`.
pub open spec fn found(held: Held, key: Seq<char>) -> Option<Seq<char>> {
    if held.contains_key(key) {
        Some(held[key])
    } else {
        None
    }
}

/// What is held after `key` is removed, or `None` where the key is not
/// held, which `remove` reports as `KeyNotFound`.
pub open spec fn after_remove(held: Held, key: Seq<char>) -> Option<Held> {
    if held.contains_key(key) {
        Some(held.remove(key))
    } else {
        None
    }
}

/// The mathematical value of an answer of `get`.
pub open spec fn answer(value: Option<String>) -> Option<Seq<char>> {
    match value {
        Some(text) => Some(text@),
        None => None,
    }
}

} // verus!
