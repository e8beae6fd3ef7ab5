//! The set of chats that subscribed to reminders.

use std::collections::HashSet;
use vstd::prelude::*;

verus! {

broadcast use vstd::std_specs::hash::group_hash_axioms;

/// The chats that receive reminders, by chat id.
pub struct IdList {
    pub subscribers: HashSet<i64>,
}

impl IdList {
    /// A list without subscribers.
    pub fn new() -> (r: IdList)
        ensures
            r.subscribers@ == Set::<i64>::empty(),
    {
        IdList { subscribers: HashSet::new() }
    }
}

/// The subscribed chat ids.
pub fn get_user_ids(list: IdList) -> (r: HashSet<i64>)
    ensures
        r@ == list.subscribers@,
{
    list.subscribers
}

/// Subscribes the chat `id`.
pub fn add_user(list: &mut IdList, id: i64)
    ensures
        final(list).subscribers@ == old(list).subscribers@.insert(id),
{
    list.subscribers.insert(id);
}

/// Unsubscribes the chat `id`.
pub fn remove_user(list: &mut IdList, id: i64)
    ensures
        final(list).subscribers@ == old(list).subscribers@.remove(id),
{
    list.subscribers.remove(&id);
}

/// Subscribing makes a chat a subscriber and unsubscribing makes it none;
/// doing either twice is doing it once; and subscribing a chat that was no
/// subscriber, then unsubscribing it, leaves the list as it was.
pub proof fn law_subscriptions(s: Set<i64>, id: i64)
    ensures
        s.insert(id).contains(id),
        !s.remove(id).contains(id),
        s.insert(id).insert(id) == s.insert(id),
        s.remove(id).remove(id) == s.remove(id),
        !s.contains(id) ==> s.insert(id).remove(id) == s,
        forall|other: i64| other != id ==> (s.insert(id).contains(other) <==> s.contains(other)),
        forall|other: i64| other != id ==> (s.remove(id).contains(other) <==> s.contains(other)),
{
    assert(s.insert(id).insert(id) =~= s.insert(id));
    assert(s.remove(id).remove(id) =~= s.remove(id));
    if !s.contains(id) {
        assert(s.insert(id).remove(id) =~= s);
    }
}

} // verus!
