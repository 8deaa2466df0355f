//! The three states of a task and the tokens that name them.

use vstd::prelude::*;
use vstd::string::StrSliceExecFns;

verus! {

/// Where a task stands.
#[derive(Clone, Copy, Debug, PartialEq, Eq, Structural)]
pub enum State {
    /// Not begun; the state of a new task.
    ToDo,
    /// Begun and not finished.
    Doing,
    /// Finished.
    Done,
}

/// An ASCII capital letter turned into its small letter; any other character as it is.
pub open spec fn lower(c: char) -> char {
    if 'A' <= c <= 'Z' {
        ((c as u32) + 32) as char
    } else {
        c
    }
}

/// The text spells `word` once its ASCII capital letters are made small.
pub open spec fn spells(text: Seq<char>, word: Seq<char>) -> bool {
    text.len() == word.len() && forall|i: int|
        0 <= i < text.len() ==> lower(#[trigger] text[i]) == word[i]
}

/// The state that a token names: `todo`, `doing` or `done`, in any mix of
/// capital and small letters.
pub open spec fn state_of_token(token: Seq<char>) -> Option<State> {
    if spells(token, seq!['t', 'o', 'd', 'o']) {
        Some(State::ToDo)
    } else if spells(token, seq!['d', 'o', 'i', 'n', 'g']) {
        Some(State::Doing)
    } else if spells(token, seq!['d', 'o', 'n', 'e']) {
        Some(State::Done)
    } else {
        None
    }
}

fn is_letter(c: char, small: char, capital: char) -> (same: bool)
    requires
        'A' <= capital <= 'Z',
        capital as u32 + 32 == small as u32,
    ensures
        same == (lower(c) == small),
{
    c == small || c == capital
}

impl State {
    /// The name of the state as it is shown.
    pub open spec fn name_spec(self) -> Seq<char> {
        match self {
            State::ToDo => "ToDo"@,
            State::Doing => "Doing"@,
            State::Done => "Done"@,
        }
    }

    /// Reads a state from a token, ignoring the case of its letters.
    pub fn from_token(token: &str) -> (state: Option<State>)
        ensures
            state == state_of_token(token@),
    {
        let len = token.unicode_len();
        if len == 4 {
            let c0 = token.get_char(0);
            let c1 = token.get_char(1);
            let c2 = token.get_char(2);
            let c3 = token.get_char(3);
            if is_letter(c0, 't', 'T') && is_letter(c1, 'o', 'O') && is_letter(c2, 'd', 'D')
                && is_letter(c3, 'o', 'O') {
                Some(State::ToDo)
            } else if is_letter(c0, 'd', 'D') && is_letter(c1, 'o', 'O') && is_letter(c2, 'n', 'N')
                && is_letter(c3, 'e', 'E') {
                Some(State::Done)
            } else {
                None
            }
        } else if len == 5 {
            let c0 = token.get_char(0);
            let c1 = token.get_char(1);
            let c2 = token.get_char(2);
            let c3 = token.get_char(3);
            let c4 = token.get_char(4);
            if is_letter(c0, 'd', 'D') && is_letter(c1, 'o', 'O') && is_letter(c2, 'i', 'I')
                && is_letter(c3, 'n', 'N') && is_letter(c4, 'g', 'G') {
                Some(State::Doing)
            } else {
                None
            }
        } else {
            None
        }
    }

    /// The name of the state as it is shown.
    pub fn name(&self) -> (name: &'static str)
        ensures
            name@ == self.name_spec(),
    {
        match self {
            State::ToDo => "ToDo",
            State::Doing => "Doing",
            State::Done => "Done",
        }
    }
}

} // verus!
