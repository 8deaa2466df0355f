//! A task tracker for chat conversations: notes, the collection that owns
//! them, the rule that decides when the collection is saved, and the commands
//! that act on it.

pub mod bot;
pub mod codec;
pub mod date;
pub mod error;
pub mod gate;
pub mod laws;
pub mod note;
pub mod notes;
pub mod parse;
pub mod state;
pub mod text;
