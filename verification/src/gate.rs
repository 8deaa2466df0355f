//! When the collection is saved: before every fifth note is added.

use crate::notes::Notes;
use vstd::prelude::*;

verus! {

/// Notes between two saves of the collection.
pub const SAVE_INTERVAL: u64 = 5;

/// The identifiers whose creation triggers a save: the multiples of five.
pub open spec fn save_due(id: u64) -> bool {
    id % SAVE_INTERVAL == 0
}

/// Decides whether creating the note with this identifier triggers a save.
pub fn should_save(id: u64) -> (due: bool)
    ensures
        due == save_due(id),
{
    id % SAVE_INTERVAL == 0
}

/// Called before a note is created: where the identifier that the note will
/// get triggers a save, hands out a copy of the collection as it is now,
/// without that note, for the caller to store.
pub fn before_create(notes: &Notes) -> (save: Option<Notes>)
    ensures
        match save {
            Some(snapshot) => save_due(notes@.next_id) && snapshot@ == notes@,
            None => !save_due(notes@.next_id),
        },
{
    if should_save(notes.next_id()) {
        Some(notes.clone())
    } else {
        None
    }
}

} // verus!
