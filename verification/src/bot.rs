//! The commands of the tracker: what each one does to the collection and what
//! is sent back to the chat.

use crate::date::{date_of_text, Date, Ymd};
use crate::error::Error;
use crate::gate::{before_create, save_due};
use crate::laws::{lemma_written_back, lemma_written_is_read};
use crate::note::{Note, NoteView};
use crate::notes::{views, Notes, NotesView};
use crate::state::state_of_token;
use vstd::prelude::*;

verus! {

/// The reply to a command that was carried out.
pub const REPLY_OK: &'static str = "Ok:)";

/// The reply to a command that changed a note.
pub const REPLY_CHANGED: &'static str = "State changed";

/// The reply to a command that names a note which does not exist.
pub const REPLY_UNKNOWN_ID: &'static str = "Unknown id";

/// The reply to a deadline that is no date.
pub const REPLY_INVALID_DATE: &'static str = "Invalid date format";

/// The summary of the commands.
pub const HELP_TEXT: &'static str =
    "These commands are supported:\n\n/help \u{2014} display this text.\n/create \u{2014} create task with <name>.\n/setstate \u{2014} <id> <ToDo | Doing | Done> - set task with <id> to state.\n/setdead \u{2014} <id> <yyyy-mm-dd> - set task with <id> <deadline>.\n/edit \u{2014} <id> <text> - set task with <id> text to <text>\n/editname \u{2014} <id> <name> - set task with <id> name to <name>.\n/delete \u{2014} <id> - delete task with <id>\n/show \u{2014} <id> - show task with <id>\n/list \u{2014} - list ToDo and Doing tasks\n/listall \u{2014} - list all tasks\n/agenda \u{2014} - list all tasks for next week";

/// What a user can ask for, with its arguments already told apart.
#[derive(Debug)]
pub enum Command {
    /// Show the summary of the commands.
    Help,
    /// Create a task with this header.
    Create(String),
    /// Set the task with this identifier to the state that the token names.
    SetState(u64, String),
    /// Set the deadline of the task with this identifier.
    SetDead(u64, String),
    /// Replace the text of the task with this identifier.
    Edit(u64, String),
    /// Replace the header of the task with this identifier.
    EditName(u64, String),
    /// Delete the task with this identifier.
    Delete(u64),
    /// Show the task with this identifier.
    Show(u64),
    /// List the tasks of the chat that are not done.
    List,
    /// List all the tasks of the chat.
    ListAll,
    /// List the tasks of the chat that are due within a week.
    Agenda,
}

impl Clone for Command {
    fn clone(&self) -> (copy: Command)
        ensures
            copy == *self,
    {
        match self {
            Command::Help => Command::Help,
            Command::Create(header) => Command::Create(header.clone()),
            Command::SetState(id, token) => Command::SetState(*id, token.clone()),
            Command::SetDead(id, text) => Command::SetDead(*id, text.clone()),
            Command::Edit(id, text) => Command::Edit(*id, text.clone()),
            Command::EditName(id, header) => Command::EditName(*id, header.clone()),
            Command::Delete(id) => Command::Delete(*id),
            Command::Show(id) => Command::Show(*id),
            Command::List => Command::List,
            Command::ListAll => Command::ListAll,
            Command::Agenda => Command::Agenda,
        }
    }
}

impl Command {
    /// The identifier of the note that the command names, if it names one.
    pub open spec fn target(self) -> Option<u64> {
        match self {
            Command::SetState(id, _)
            | Command::SetDead(id, _)
            | Command::Edit(id, _)
            | Command::EditName(id, _)
            | Command::Delete(id)
            | Command::Show(id) => Some(id),
            _ => None,
        }
    }

    /// The summary of the commands, as it is sent in reply to [`Command::Help`].
    pub fn descriptions() -> (text: String)
        ensures
            text@ == HELP_TEXT@,
    {
        HELP_TEXT.to_owned()
    }
}

/// What carrying out a command has led to, for the caller to act on.
#[derive(Debug)]
pub struct Outcome {
    /// The texts to send back to the chat, in this order.
    pub replies: Vec<String>,
    /// What went wrong, if anything did.
    pub error: Option<Error>,
    /// The collection as it was before the command, where it is now to be saved.
    pub save: Option<Notes>,
}

/// The texts of a list of replies.
pub open spec fn texts(replies: Seq<String>) -> Seq<Seq<char>> {
    Seq::new(replies.len(), |i: int| replies[i]@)
}

/// The notes of a list as they are shown, one text for each.
pub open spec fn shown(list: Seq<NoteView>) -> Seq<Seq<char>> {
    Seq::new(list.len(), |i: int| list[i].display_text())
}

/// The reply to a command that changes the note with an identifier.
pub open spec fn change_reply(notes: NotesView, id: u64) -> Seq<char> {
    if notes.has(id) {
        REPLY_CHANGED@
    } else {
        REPLY_UNKNOWN_ID@
    }
}

impl NotesView {
    /// The collection after the command was carried out for the chat.
    pub open spec fn after(self, chat: u64, command: Command) -> NotesView {
        match command {
            Command::Create(header) => self.created(header@, chat),
            Command::SetState(id, token) => match (self.lookup(id), state_of_token(token@)) {
                (Some(note), Some(state)) => self.with_note(id, NoteView { state, ..note }),
                _ => self,
            },
            Command::SetDead(id, text) => match (self.lookup(id), date_of_text(text@)) {
                (Some(note), Some(date)) => self.with_note(
                    id,
                    NoteView { deadline: Some(date), ..note },
                ),
                _ => self,
            },
            Command::Edit(id, text) => match self.lookup(id) {
                Some(note) => self.with_note(id, NoteView { text: text@, ..note }),
                None => self,
            },
            Command::EditName(id, header) => match self.lookup(id) {
                Some(note) => self.with_note(id, NoteView { header: header@, ..note }),
                None => self,
            },
            Command::Delete(id) => self.deleted(id),
            _ => self,
        }
    }

    /// What goes wrong when the command is carried out: a deadline that is no
    /// date, before anything else; a note that does not exist; a token that
    /// names no state.
    pub open spec fn failure(self, command: Command) -> Option<Error> {
        match command {
            Command::SetState(id, token) => if !self.has(id) {
                Some(Error::NotFound)
            } else if state_of_token(token@) is None {
                Some(Error::InvalidState)
            } else {
                None
            },
            Command::SetDead(id, text) => if date_of_text(text@) is None {
                Some(Error::InvalidDate)
            } else if !self.has(id) {
                Some(Error::NotFound)
            } else {
                None
            },
            Command::Edit(id, _) | Command::EditName(id, _) | Command::Show(id) => if !self.has(
                id,
            ) {
                Some(Error::NotFound)
            } else {
                None
            },
            _ => None,
        }
    }

    /// The texts that answer the command, in their order.
    pub open spec fn replies(self, chat: u64, today: Ymd, command: Command) -> Seq<Seq<char>> {
        match command {
            Command::Help => seq![HELP_TEXT@],
            Command::Create(_) | Command::Delete(_) => seq![REPLY_OK@],
            Command::SetState(id, _) | Command::Edit(id, _) | Command::EditName(id, _) => seq![
                change_reply(self, id),
            ],
            Command::SetDead(id, text) => if date_of_text(text@) is None {
                seq![REPLY_INVALID_DATE@, change_reply(self, id)]
            } else {
                seq![change_reply(self, id)]
            },
            Command::Show(id) => match self.lookup(id) {
                Some(note) => seq![note.display_text()],
                None => seq![REPLY_UNKNOWN_ID@],
            },
            Command::List => shown(self.open_in(chat)).push(REPLY_OK@),
            Command::ListAll => shown(self.all_in(chat)).push(REPLY_OK@),
            Command::Agenda => shown(self.agenda(chat, today)).push(REPLY_OK@),
        }
    }

    /// The command makes the collection due for a save: it creates the note
    /// whose identifier is a multiple of five.
    pub open spec fn save_before(self, command: Command) -> bool {
        command is Create && save_due(self.next_id)
    }
}

impl Outcome {
    /// The outcome once the caller has tried to store the collection that it
    /// asked to be saved. A save that failed is recorded as a storage failure;
    /// the replies stay as they are, so the command still counts as carried out.
    pub fn after_save(self, stored: bool) -> (out: Outcome)
        ensures
            out.replies == self.replies,
            out.save is None,
            out.error == if self.save is Some && !stored {
                Some(Error::StorageFailure)
            } else {
                self.error
            },
    {
        let error = if self.save.is_some() && !stored {
            Some(Error::StorageFailure)
        } else {
            self.error
        };
        Outcome { replies: self.replies, error, save: None }
    }
}

/// The task tracker of the chats: it carries out commands on its notes.
#[derive(Debug)]
pub struct NotesBot {
    pub notes: Notes,
}

fn reply(replies: &mut Vec<String>, text: &str)
    ensures
        texts(final(replies)@) == texts(old(replies)@).push(text@),
{
    replies.push(text.to_owned());
    assert(texts(replies@) =~= texts(old(replies)@).push(text@));
}

fn reply_each(replies: &mut Vec<String>, list: &Vec<&Note>)
    ensures
        texts(final(replies)@) == texts(old(replies)@) + shown(views(list@)),
{
    let mut i: usize = 0;
    assert(texts(replies@) =~= texts(old(replies)@) + shown(views(list@)).take(0));
    while i < list.len()
        invariant
            i <= list@.len(),
            texts(replies@) == texts(old(replies)@) + shown(views(list@)).take(i as int),
        decreases list@.len() - i,
    {
        let ghost before = replies@;
        replies.push(list[i].to_display_text());
        assert(texts(replies@) =~= texts(before).push(views(list@)[i as int].display_text()));
        assert(texts(replies@) =~= texts(old(replies)@) + shown(views(list@)).take(i + 1));
        i = i + 1;
    }
    assert(shown(views(list@)).take(i as int) =~= shown(views(list@)));
}

impl NotesBot {
    /// A tracker without notes.
    pub fn new() -> (bot: NotesBot)
        ensures
            bot.notes.wf(),
            bot.notes@ == NotesView::empty(),
    {
        NotesBot { notes: Notes::new() }
    }

    /// Carries out a command that came from a chat on the day `today`, and says
    /// what to send back. Before the note whose identifier is a multiple of five
    /// is added, the collection is handed out to be saved: as it is then,
    /// without that note.
    pub fn answer(&mut self, chat: u64, today: &Date, command: Command) -> (out: Outcome)
        requires
            old(self).notes.wf(),
            command is Create ==> old(self).notes@.next_id < u64::MAX,
        ensures
            final(self).notes.wf(),
            final(self).notes@ == old(self).notes@.after(chat, command),
            out.error == old(self).notes@.failure(command),
            texts(out.replies@) == old(self).notes@.replies(chat, today@, command),
            match out.save {
                Some(snapshot) => old(self).notes@.save_before(command) && snapshot@ == old(
                    self,
                ).notes@,
                None => !old(self).notes@.save_before(command),
            },
    {
        let ghost before = self.notes@;
        let ghost asked = command;
        let mut replies: Vec<String> = Vec::new();
        let mut error: Option<Error> = None;
        let mut save: Option<Notes> = None;
        assert(texts(replies@) =~= Seq::<Seq<char>>::empty());
        match command {
            Command::Help => {
                replies.push(Command::descriptions());
                assert(texts(replies@) =~= seq![HELP_TEXT@]);
            },
            Command::Create(header) => {
                save = before_create(&self.notes);
                let _ = self.notes.create(header, chat);
                reply(&mut replies, REPLY_OK);
                assert(texts(replies@) =~= seq![REPLY_OK@]);
            },
            Command::SetState(id, token) => {
                match self.notes.get_mut(id) {
                    Some(note) => {
                        match note.set_state(token.as_str()) {
                            Ok(()) => {},
                            Err(e) => {
                                error = Some(e);
                            },
                        }
                        reply(&mut replies, REPLY_CHANGED);
                    },
                    None => {
                        error = Some(Error::NotFound);
                        reply(&mut replies, REPLY_UNKNOWN_ID);
                    },
                }
                assert(texts(replies@) =~= seq![change_reply(before, id)]);
            },
            Command::SetDead(id, text) => {
                let parsed = Date::parse(text.as_str());
                if parsed.is_none() {
                    error = Some(Error::InvalidDate);
                    reply(&mut replies, REPLY_INVALID_DATE);
                }
                match self.notes.get_mut(id) {
                    Some(note) => {
                        let _ = note.set_parsed_deadline(parsed);
                        reply(&mut replies, REPLY_CHANGED);
                    },
                    None => {
                        if error.is_none() {
                            error = Some(Error::NotFound);
                        }
                        reply(&mut replies, REPLY_UNKNOWN_ID);
                    },
                }
                assert(date_of_text(text@) is None ==> texts(replies@) =~= seq![
                    REPLY_INVALID_DATE@,
                    change_reply(before, id),
                ]);
                assert(date_of_text(text@) is Some ==> texts(replies@) =~= seq![
                    change_reply(before, id),
                ]);
            },
            Command::Edit(id, text) => {
                match self.notes.get_mut(id) {
                    Some(note) => {
                        note.set_text(text);
                        reply(&mut replies, REPLY_CHANGED);
                    },
                    None => {
                        error = Some(Error::NotFound);
                        reply(&mut replies, REPLY_UNKNOWN_ID);
                    },
                }
                assert(texts(replies@) =~= seq![change_reply(before, id)]);
            },
            Command::EditName(id, header) => {
                match self.notes.get_mut(id) {
                    Some(note) => {
                        note.set_header(header);
                        reply(&mut replies, REPLY_CHANGED);
                    },
                    None => {
                        error = Some(Error::NotFound);
                        reply(&mut replies, REPLY_UNKNOWN_ID);
                    },
                }
                assert(texts(replies@) =~= seq![change_reply(before, id)]);
            },
            Command::Delete(id) => {
                self.notes.delete(id);
                reply(&mut replies, REPLY_OK);
                assert(texts(replies@) =~= seq![REPLY_OK@]);
            },
            Command::Show(id) => {
                match self.notes.get(id) {
                    Some(note) => {
                        replies.push(note.to_display_text());
                        assert(texts(replies@) =~= seq![note@.display_text()]);
                    },
                    None => {
                        error = Some(Error::NotFound);
                        reply(&mut replies, REPLY_UNKNOWN_ID);
                        assert(texts(replies@) =~= seq![REPLY_UNKNOWN_ID@]);
                    },
                }
            },
            Command::List => {
                let list = self.notes.list_by_chat(chat);
                reply_each(&mut replies, &list);
                reply(&mut replies, REPLY_OK);
                assert(texts(replies@) =~= shown(before.open_in(chat)).push(REPLY_OK@));
            },
            Command::ListAll => {
                let list = self.notes.list_by_chat_all(chat);
                reply_each(&mut replies, &list);
                reply(&mut replies, REPLY_OK);
                assert(texts(replies@) =~= shown(before.all_in(chat)).push(REPLY_OK@));
            },
            Command::Agenda => {
                let list = self.notes.agenda(chat, today);
                reply_each(&mut replies, &list);
                reply(&mut replies, REPLY_OK);
                assert(texts(replies@) =~= shown(before.agenda(chat, today@)).push(REPLY_OK@));
            },
        }
        proof {
            match asked {
                Command::SetState(id, _)
                | Command::SetDead(id, _)
                | Command::Edit(id, _)
                | Command::EditName(id, _) => {
                    if before.has(id) {
                        lemma_written_back(before, id);
                        lemma_written_is_read(before, id, self.notes@.notes[before.position(id)]);
                    }
                },
                _ => {},
            }
        }
        Outcome { replies, error, save }
    }
}

} // verus!
