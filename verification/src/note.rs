//! A single task and what can be changed of it.

use crate::date::{date_of_text, Date, Ymd};
use crate::error::Error;
use crate::state::{state_of_token, State};
use crate::text::{decimal, push_decimal};
use vstd::prelude::*;
use vstd::string::StringExecFns;

verus! {

/// The model of a [`Note`]: its fields as mathematical values.
pub struct NoteView {
    pub id: u64,
    pub owner_chat: u64,
    pub header: Seq<char>,
    pub text: Seq<char>,
    pub state: State,
    pub deadline: Option<Ymd>,
}

impl NoteView {
    /// The note as it is right after its creation.
    pub open spec fn fresh(id: u64, header: Seq<char>, owner_chat: u64) -> NoteView {
        NoteView {
            id,
            owner_chat,
            header,
            text: Seq::empty(),
            state: State::ToDo,
            deadline: None,
        }
    }

    /// The deadline, where there is one, is a day of the calendar.
    pub open spec fn wf(self) -> bool {
        self.deadline matches Some(date) ==> date.valid()
    }

    /// The deadline as it is shown.
    pub open spec fn deadline_text(self) -> Seq<char> {
        match self.deadline {
            Some(date) => date.text(),
            None => "none"@,
        }
    }

    /// The note as a block of text: identifier and header, state, deadline, body.
    pub open spec fn display_text(self) -> Seq<char> {
        "#"@ + decimal(self.id as nat) + " "@ + self.header + "\nState: "@ + self.state.name_spec()
            + "\nDeadline: "@ + self.deadline_text() + "\n"@ + self.text
    }

    /// The note belongs to the chat and is not done.
    pub open spec fn is_open_in(self, chat: u64) -> bool {
        self.owner_chat == chat && self.state != State::Done
    }

    /// The note belongs to the chat and its deadline lies within the week that
    /// starts at `today`.
    pub open spec fn is_due_in(self, chat: u64, today: Ymd) -> bool {
        self.owner_chat == chat && (self.deadline matches Some(date) && date.in_week_from(today))
    }
}

/// A task: who owns it, what it says, where it stands and when it is due.
#[derive(Debug)]
pub struct Note {
    id: u64,
    owner_chat: u64,
    header: String,
    text: String,
    state: State,
    deadline: Option<Date>,
}

impl View for Note {
    type V = NoteView;

    closed spec fn view(&self) -> NoteView {
        NoteView {
            id: self.id,
            owner_chat: self.owner_chat,
            header: self.header@,
            text: self.text@,
            state: self.state,
            deadline: match self.deadline {
                Some(date) => Some(date@),
                None => None,
            },
        }
    }
}

impl Clone for Note {
    fn clone(&self) -> (copy: Note)
        ensures
            copy == *self,
    {
        Note {
            id: self.id,
            owner_chat: self.owner_chat,
            header: self.header.clone(),
            text: self.text.clone(),
            state: self.state,
            deadline: self.deadline,
        }
    }
}

impl Note {
    /// The deadline, where there is one, is a day of the calendar.
    pub open spec fn wf(&self) -> bool {
        self@.wf()
    }

    /// A new note: to do, without text and without deadline.
    pub fn new(id: u64, header: String, owner_chat: u64) -> (note: Note)
        ensures
            note@ == NoteView::fresh(id, header@, owner_chat),
            note.wf(),
    {
        Note { id, owner_chat, header, text: String::new(), state: State::ToDo, deadline: None }
    }

    /// A note with every field given, as it is read back from storage.
    pub fn restore(
        id: u64,
        owner_chat: u64,
        header: String,
        text: String,
        state: State,
        deadline: Option<Date>,
    ) -> (note: Note)
        requires
            deadline matches Some(date) ==> date.wf(),
        ensures
            note.wf(),
            note@.id == id,
            note@.owner_chat == owner_chat,
            note@.header == header@,
            note@.text == text@,
            note@.state == state,
            note@.deadline == match deadline {
                Some(date) => Some(date@),
                None => None,
            },
    {
        Note { id, owner_chat, header, text, state, deadline }
    }

    /// The identifier; it never changes.
    pub fn id(&self) -> (id: u64)
        ensures
            id == self@.id,
    {
        self.id
    }

    /// The chat that created the note; it never changes.
    pub fn owner_chat(&self) -> (chat: u64)
        ensures
            chat == self@.owner_chat,
    {
        self.owner_chat
    }

    /// The short label.
    pub fn header(&self) -> (header: &str)
        ensures
            header@ == self@.header,
    {
        self.header.as_str()
    }

    /// The body text.
    pub fn text(&self) -> (text: &str)
        ensures
            text@ == self@.text,
    {
        self.text.as_str()
    }

    /// Where the task stands.
    pub fn state(&self) -> (state: State)
        ensures
            state == self@.state,
    {
        self.state
    }

    /// The day the task is due, if one was set.
    pub fn deadline(&self) -> (deadline: Option<Date>)
        ensures
            match deadline {
                Some(date) => self@.deadline == Some(date@) && (self.wf() ==> date.wf()),
                None => self@.deadline is None,
            },
    {
        self.deadline
    }

    /// Sets the state that the token names. A token that names none leaves the
    /// note as it was.
    pub fn set_state(&mut self, token: &str) -> (done: Result<(), Error>)
        ensures
            match state_of_token(token@) {
                Some(state) => done is Ok && final(self)@ == (NoteView { state, ..old(self)@ }),
                None => done == Err::<(), Error>(Error::InvalidState) && *final(self) == *old(self),
            },
    {
        match State::from_token(token) {
            Some(state) => {
                self.state = state;
                Ok(())
            },
            None => Err(Error::InvalidState),
        }
    }

    /// Sets the deadline to the date that was read, or reports that none was.
    pub fn set_parsed_deadline(&mut self, parsed: Option<Date>) -> (done: Result<(), Error>)
        ensures
            match parsed {
                Some(date) => done is Ok && final(self)@ == (NoteView {
                    deadline: Some(date@),
                    ..old(self)@
                }),
                None => done == Err::<(), Error>(Error::InvalidDate) && *final(self) == *old(self),
            },
    {
        match parsed {
            Some(date) => {
                self.deadline = Some(date);
                Ok(())
            },
            None => Err(Error::InvalidDate),
        }
    }

    /// Sets the deadline to the date that the text denotes, or clears it where no
    /// text is given. A text that denotes no date leaves the note as it was.
    pub fn set_deadline(&mut self, text: Option<&str>) -> (done: Result<(), Error>)
        ensures
            old(self).wf() ==> final(self).wf(),
            match text {
                None => done is Ok && final(self)@ == (NoteView { deadline: None, ..old(self)@ }),
                Some(t) => match date_of_text(t@) {
                    Some(date) => done is Ok && final(self)@ == (NoteView {
                        deadline: Some(date),
                        ..old(self)@
                    }),
                    None => done == Err::<(), Error>(Error::InvalidDate) && *final(self) == *old(
                        self,
                    ),
                },
            },
    {
        match text {
            None => {
                self.deadline = None;
                Ok(())
            },
            Some(t) => self.set_parsed_deadline(Date::parse(t)),
        }
    }

    /// Replaces the body text.
    pub fn set_text(&mut self, text: String)
        ensures
            final(self)@ == (NoteView { text: text@, ..old(self)@ }),
    {
        self.text = text;
    }

    /// Replaces the header.
    pub fn set_header(&mut self, header: String)
        ensures
            final(self)@ == (NoteView { header: header@, ..old(self)@ }),
    {
        self.header = header;
    }

    /// The note as a block of text.
    pub fn to_display_text(&self) -> (shown: String)
        ensures
            shown@ == self@.display_text(),
    {
        let mut shown = String::new();
        shown.append("#");
        push_decimal(&mut shown, self.id);
        shown.append(" ");
        shown.append(self.header.as_str());
        shown.append("\nState: ");
        shown.append(self.state.name());
        shown.append("\nDeadline: ");
        match self.deadline {
            Some(date) => date.push_text(&mut shown),
            None => shown.append("none"),
        }
        shown.append("\n");
        shown.append(self.text.as_str());
        assert(shown@ =~= self@.display_text());
        shown
    }
}

} // verus!
