//! The four operations that every store offers, and what they do to what
//! the store holds.

use vstd::prelude::*;
use crate::entry::{Entry, EntryView};

verus! {

/// What a store finds under `key`.
pub open spec fn found_under(held: Map<Seq<char>, EntryView>, key: Seq<char>) -> Option<
    EntryView,
> {
    if held.contains_key(key) {
        Some(held[key])
    } else {
        None
    }
}

/// What an optional entry stands for.
pub open spec fn opt_view(entry: Option<Entry>) -> Option<EntryView> {
    match entry {
        Some(e) => Some(e@),
        None => None,
    }
}

/// A mapping from keys to entries. Readers get copies, never aliases.
pub trait Storage {
    /// What the store holds.
    spec fn contents(&self) -> Map<Seq<char>, EntryView>;

    /// Puts `value` under `key`, in place of what was there.
    fn set(&mut self, key: String, value: Entry)
        ensures
            final(self).contents() == old(self).contents().insert(key@, value@),
    ;

    /// A copy of what is under `key`, if anything.
    fn get(&self, key: &String) -> (r: Option<Entry>)
        ensures
            opt_view(r) == found_under(self.contents(), key@),
    ;

    /// Takes what is under `key` out of the store and hands it over.
    fn pull_out(&mut self, key: &String) -> (r: Option<Entry>)
        ensures
            opt_view(r) == found_under(old(self).contents(), key@),
            final(self).contents() == old(self).contents().remove(key@),
    ;

    /// Deletes what is under `key`.
    fn remove(&mut self, key: &String)
        ensures
            final(self).contents() == old(self).contents().remove(key@),
    ;
}

/// What was set under a key is found under it, whatever was there before,
/// and what is under any other key is found as before.
pub proof fn lemma_set_then_get(
    held: Map<Seq<char>, EntryView>,
    key: Seq<char>,
    value: EntryView,
    other: Seq<char>,
)
    ensures
        found_under(held.insert(key, value), key) == Some(value),
        other != key ==> found_under(held.insert(key, value), other) == found_under(held, other),
{
}

/// After a key was pulled out or removed nothing is found under it, and what
/// is under any other key is found as before.
pub proof fn lemma_remove_then_get(held: Map<Seq<char>, EntryView>, key: Seq<char>, other: Seq<char>)
    ensures
        found_under(held.remove(key), key) == None::<EntryView>,
        other != key ==> found_under(held.remove(key), other) == found_under(held, other),
{
}

/// Pulling an entry out and setting it back under its key leaves the store
/// as it was.
pub proof fn lemma_pull_out_then_set(held: Map<Seq<char>, EntryView>, key: Seq<char>)
    requires
        held.contains_key(key),
    ensures
        held.remove(key).insert(key, held[key]) == held,
{
    assert(held.remove(key).insert(key, held[key]) =~= held);
}

} // verus!
