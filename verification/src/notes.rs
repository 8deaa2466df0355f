//! The collection that owns the notes, numbers them and answers the queries of
//! a chat.

use crate::date::{Date, Ymd};
use crate::laws::{lemma_agenda_grows, lemma_agenda_unique};
use crate::note::{Note, NoteView};
use crate::state::State;
use vstd::prelude::*;

verus! {

/// The model of a [`Notes`] collection: its notes in ascending order of their
/// identifiers, and the identifier that the next note will get.
pub struct NotesView {
    pub notes: Seq<NoteView>,
    pub next_id: u64,
}

impl NotesView {
    /// The collection without notes, whose first note will get the identifier 1.
    pub open spec fn empty() -> NotesView {
        NotesView { notes: Seq::empty(), next_id: 1 }
    }

    /// Identifiers ascend strictly, so none occurs twice; all lie below the
    /// counter, so none is ever given out again; every note is well formed.
    pub open spec fn wf(self) -> bool {
        &&& ascending(self.notes)
        &&& forall|i: int| 0 <= i < self.notes.len() ==> (#[trigger] self.notes[i]).id < self.next_id
        &&& forall|i: int| 0 <= i < self.notes.len() ==> (#[trigger] self.notes[i]).wf()
    }

    /// Some note has the identifier.
    pub open spec fn has(self, id: u64) -> bool {
        exists|i: int| 0 <= i < self.notes.len() && (#[trigger] self.notes[i]).id == id
    }

    /// Where the note with the identifier stands.
    pub open spec fn position(self, id: u64) -> int {
        choose|i: int| 0 <= i < self.notes.len() && (#[trigger] self.notes[i]).id == id
    }

    /// The note with the identifier, if there is one.
    pub open spec fn lookup(self, id: u64) -> Option<NoteView> {
        if self.has(id) {
            Some(self.notes[self.position(id)])
        } else {
            None
        }
    }

    /// The collection after a note was created.
    pub open spec fn created(self, header: Seq<char>, owner_chat: u64) -> NotesView {
        NotesView {
            notes: self.notes.push(NoteView::fresh(self.next_id, header, owner_chat)),
            next_id: (self.next_id + 1) as u64,
        }
    }

    /// The collection after the note with the identifier was deleted.
    pub open spec fn deleted(self, id: u64) -> NotesView {
        if self.has(id) {
            NotesView { notes: self.notes.remove(self.position(id)), next_id: self.next_id }
        } else {
            self
        }
    }

    /// The notes of the chat, in ascending order of their identifiers: those that
    /// are not done where `only_open` is set, all of them where it is not.
    pub open spec fn listed(self, chat: u64, only_open: bool) -> Seq<NoteView> {
        self.notes.filter(listing(chat, only_open))
    }

    /// The notes of the chat that are to do or being done.
    pub open spec fn open_in(self, chat: u64) -> Seq<NoteView> {
        self.listed(chat, true)
    }

    /// All the notes of the chat.
    pub open spec fn all_in(self, chat: u64) -> Seq<NoteView> {
        self.listed(chat, false)
    }

    /// `list` is the agenda of the chat: exactly the notes of the chat whose
    /// deadline lies within the week that starts at `today`, the earlier deadline
    /// first and, of two notes due on the same day, the smaller identifier first.
    pub open spec fn has_agenda(self, list: Seq<NoteView>, chat: u64, today: Ymd) -> bool {
        &&& forall|i: int, j: int| 0 <= i < j < list.len() ==> due_before(list[i], list[j])
        &&& forall|n: NoteView| #[trigger]
            list.contains(n) <==> self.notes.contains(n) && n.is_due_in(chat, today)
    }

    /// The agenda of the chat for the week that starts at `today`; a well-formed
    /// collection has exactly one.
    pub open spec fn agenda(self, chat: u64, today: Ymd) -> Seq<NoteView> {
        choose|list: Seq<NoteView>| self.has_agenda(list, chat, today)
    }

    /// The collection that stored notes and a stored counter give back: the notes
    /// as they are, and a counter that is the stored one or, where that is too
    /// small, the greatest identifier plus one. Nothing where the identifiers do
    /// not ascend or leave no room for a counter.
    pub open spec fn restored(notes: Seq<NoteView>, next_id: u64) -> Option<NotesView> {
        if !ascending(notes) {
            None
        } else if notes.len() == 0 || notes.last().id < next_id {
            Some(NotesView { notes, next_id })
        } else if notes.last().id < u64::MAX {
            Some(NotesView { notes, next_id: (notes.last().id + 1) as u64 })
        } else {
            None
        }
    }

    /// The collection with `note` in the place of the note with the identifier.
    pub open spec fn with_note(self, id: u64, note: NoteView) -> NotesView {
        NotesView { notes: self.notes.update(self.position(id), note), next_id: self.next_id }
    }
}

/// The identifiers ascend strictly along the sequence.
pub open spec fn ascending(notes: Seq<NoteView>) -> bool {
    forall|i: int, j: int| 0 <= i < j < notes.len() ==> notes[i].id < notes[j].id
}

/// The test that a note passes to be listed for a chat.
pub open spec fn listing(chat: u64, only_open: bool) -> spec_fn(NoteView) -> bool {
    |n: NoteView|
        if only_open {
            n.is_open_in(chat)
        } else {
            n.owner_chat == chat
        }
}

/// The order of an agenda: `a` is due on an earlier day than `b`, or on the same
/// day and has the smaller identifier. Notes without a deadline are not ordered.
pub open spec fn due_before(a: NoteView, b: NoteView) -> bool {
    match (a.deadline, b.deadline) {
        (Some(x), Some(y)) => x.before(y) || (x == y && a.id < b.id),
        _ => false,
    }
}

/// All the notes of the conversations, and the counter that numbers them.
#[derive(Debug)]
pub struct Notes {
    items: Vec<Note>,
    next_id: u64,
}

impl View for Notes {
    type V = NotesView;

    closed spec fn view(&self) -> NotesView {
        NotesView { notes: models(self.items@), next_id: self.next_id }
    }
}

/// The models of the notes of a sequence.
pub open spec fn models(items: Seq<Note>) -> Seq<NoteView> {
    Seq::new(items.len(), |i: int| items[i]@)
}

/// The models of a list of notes.
pub open spec fn views(list: Seq<&Note>) -> Seq<NoteView> {
    Seq::new(list.len(), |i: int| list[i]@)
}

/// The model of a note that may be absent.
pub open spec fn view_of(note: Option<&Note>) -> Option<NoteView> {
    match note {
        Some(n) => Some(n@),
        None => None,
    }
}

impl Clone for Notes {
    fn clone(&self) -> (copy: Notes)
        ensures
            copy@ == self@,
    {
        let mut items: Vec<Note> = Vec::new();
        let mut i: usize = 0;
        while i < self.items.len()
            invariant
                i <= self.items@.len(),
                items@ == self.items@.take(i as int),
            decreases self.items@.len() - i,
        {
            items.push(self.items[i].clone());
            assert(items@ =~= self.items@.take(i + 1));
            i = i + 1;
        }
        assert(items@ =~= self.items@);
        Notes { items, next_id: self.next_id }
    }
}

impl Notes {
    /// The invariant of the collection; see [`NotesView::wf`].
    pub open spec fn wf(&self) -> bool {
        self@.wf()
    }

    /// An empty collection whose first note will get the identifier 1.
    pub fn new() -> (notes: Notes)
        ensures
            notes.wf(),
            notes@ == NotesView::empty(),
    {
        let notes = Notes { items: Vec::new(), next_id: 1 };
        assert(notes@.notes =~= Seq::<NoteView>::empty());
        notes
    }

    /// Rebuilds a collection from stored notes and a stored counter. The notes
    /// must come in ascending order of their identifiers; the counter is raised
    /// where a stored identifier has reached it.
    pub fn restore(items: Vec<Note>, next_id: u64) -> (notes: Option<Notes>)
        requires
            forall|i: int| 0 <= i < items@.len() ==> (#[trigger] items@[i]).wf(),
        ensures
            match notes {
                Some(kept) => kept.wf() && NotesView::restored(models(items@), next_id) == Some(
                    kept@,
                ),
                None => NotesView::restored(models(items@), next_id) is None,
            },
    {
        let ghost all = models(items@);
        let len = items.len();
        let mut i: usize = 1;
        while i < len
            invariant
                1 <= i,
                len == items@.len(),
                all == models(items@),
                forall|k: int| 1 <= k < i ==> (#[trigger] all[k - 1]).id < all[k].id,
            decreases len - i,
        {
            if items[i - 1].id() >= items[i].id() {
                assert(all[i - 1].id >= all[i as int].id);
                return None;
            }
            i = i + 1;
        }
        proof {
            assert forall|a: int, b: int| 0 <= a < b < all.len() implies all[a].id
                < all[b].id by {
                lemma_steps_ascend(all, a, b);
            }
        }
        let next = if len == 0 {
            next_id
        } else {
            let last = items[len - 1].id();
            assert(last == all.last().id);
            if last < next_id {
                next_id
            } else if last < u64::MAX {
                last + 1
            } else {
                return None;
            }
        };
        let kept = Notes { items, next_id: next };
        proof {
            assert forall|k: int| 0 <= k < all.len() implies (#[trigger] all[k]).id < next by {
                if k < all.len() - 1 {
                    assert(all[k].id < all[all.len() - 1].id);
                }
            }
        }
        Some(kept)
    }

    /// The number of notes.
    pub fn len(&self) -> (len: usize)
        ensures
            len == self@.notes.len(),
    {
        self.items.len()
    }

    /// The identifier that the next note will get.
    pub fn next_id(&self) -> (id: u64)
        ensures
            id == self@.next_id,
    {
        self.next_id
    }

    /// The notes in ascending order of their identifiers.
    pub fn as_slice(&self) -> (items: &[Note])
        ensures
            models(items@) == self@.notes,
    {
        self.items.as_slice()
    }

    fn find(&self, id: u64) -> (at: Option<usize>)
        requires
            self.wf(),
        ensures
            match at {
                Some(i) => i < self@.notes.len() && self@.notes[i as int].id == id
                    && self@.position(id) == i,
                None => !self@.has(id),
            },
    {
        let mut low: usize = 0;
        let mut high: usize = self.items.len();
        while low < high
            invariant
                self.wf(),
                low <= high <= self.items@.len(),
                forall|i: int| 0 <= i < low ==> (#[trigger] self@.notes[i]).id < id,
                forall|i: int| high <= i < self.items@.len() ==> (#[trigger] self@.notes[i]).id > id,
            decreases high - low,
        {
            let mid = low + (high - low) / 2;
            let found = self.items[mid].id();
            assert(found == self@.notes[mid as int].id);
            if found == id {
                assert(self@.has(id));
                return Some(mid);
            } else if found < id {
                low = mid + 1;
            } else {
                high = mid;
            }
        }
        None
    }

    /// The note with the identifier, if there is one.
    pub fn get(&self, id: u64) -> (found: Option<&Note>)
        requires
            self.wf(),
        ensures
            view_of(found) == self@.lookup(id),
    {
        match self.find(id) {
            Some(i) => Some(&self.items[i]),
            None => None,
        }
    }

    /// A handle to change the note with the identifier, if there is one. What is
    /// written through the handle is what the collection then holds in that place.
    pub fn get_mut(&mut self, id: u64) -> (found: Option<&mut Note>)
        requires
            old(self).wf(),
        ensures
            match found {
                Some(note) => old(self)@.lookup(id) == Some(note@) && final(self)@ == old(
                    self,
                )@.with_note(id, final(note)@),
                None => old(self)@.lookup(id) is None && *final(self) == *old(self),
            },
    {
        match self.find(id) {
            Some(i) => {
                proof {
                    let items = self.items@;
                    assert forall|n: Note|
                        models(#[trigger] items.update(i as int, n)) == models(items).update(
                            i as int,
                            n@,
                        ) by {
                        assert(models(items.update(i as int, n)) =~= models(items).update(
                            i as int,
                            n@,
                        ));
                    }
                }
                let note = &mut self.items[i];
                Some(note)
            },
            None => None,
        }
    }

    /// Creates a note for the chat and returns its identifier: the value of the
    /// counter, which then moves on by one.
    pub fn create(&mut self, header: String, owner_chat: u64) -> (id: u64)
        requires
            old(self).wf(),
            old(self)@.next_id < u64::MAX,
        ensures
            final(self).wf(),
            id == old(self)@.next_id,
            final(self)@ == old(self)@.created(header@, owner_chat),
    {
        let id = self.next_id;
        self.items.push(Note::new(id, header, owner_chat));
        self.next_id = id + 1;
        assert(self@.notes =~= old(self)@.created(header@, owner_chat).notes);
        id
    }

    /// Deletes the note with the identifier. Where there is none, nothing changes.
    pub fn delete(&mut self, id: u64)
        requires
            old(self).wf(),
        ensures
            final(self).wf(),
            final(self)@ == old(self)@.deleted(id),
    {
        match self.find(id) {
            Some(i) => {
                let _ = self.items.remove(i);
                assert(self@.notes =~= old(self)@.notes.remove(i as int));
            },
            None => {},
        }
    }

    fn select(&self, chat: u64, only_open: bool) -> (list: Vec<&Note>)
        ensures
            views(list@) == self@.listed(chat, only_open),
    {
        let ghost all = self@.notes;
        let ghost pred = listing(chat, only_open);
        let mut list: Vec<&Note> = Vec::new();
        let mut i: usize = 0;
        proof {
            reveal(Seq::filter);
            assert(all.take(0).filter(pred) =~= views(list@));
        }
        while i < self.items.len()
            invariant
                i <= self.items@.len(),
                all == self@.notes,
                pred == listing(chat, only_open),
                views(list@) == all.take(i as int).filter(pred),
            decreases self.items@.len() - i,
        {
            let note = &self.items[i];
            let ghost before = list@;
            proof {
                assert(all.take(i + 1) =~= all.take(i as int).push(all[i as int]));
                all.take(i as int).lemma_filter_push(all[i as int], pred);
            }
            let open = match note.state() {
                State::Done => false,
                _ => true,
            };
            if note.owner_chat() == chat && (!only_open || open) {
                list.push(note);
                assert(views(list@) =~= views(before).push(note@));
            }
            i = i + 1;
        }
        assert(all.take(i as int) =~= all);
        list
    }

    /// The notes of the chat that are to do or being done, in ascending order of
    /// their identifiers.
    pub fn list_by_chat(&self, owner_chat: u64) -> (list: Vec<&Note>)
        ensures
            views(list@) == self@.open_in(owner_chat),
    {
        self.select(owner_chat, true)
    }

    /// All the notes of the chat, in ascending order of their identifiers.
    pub fn list_by_chat_all(&self, owner_chat: u64) -> (list: Vec<&Note>)
        ensures
            views(list@) == self@.all_in(owner_chat),
    {
        self.select(owner_chat, false)
    }

    /// The agenda of the chat for the week that starts at `today`.
    pub fn agenda(&self, owner_chat: u64, today: &Date) -> (list: Vec<&Note>)
        requires
            self.wf(),
        ensures
            self@.has_agenda(views(list@), owner_chat, today@),
            views(list@) == self@.agenda(owner_chat, today@),
    {
        let ghost all = self@.notes;
        let mut list: Vec<&Note> = Vec::new();
        let mut i: usize = 0;
        proof {
            let none = NotesView { notes: all.take(0), next_id: self@.next_id };
            assert(none.has_agenda(views(list@), owner_chat, today@));
        }
        while i < self.items.len()
            invariant
                self.wf(),
                i <= self.items@.len(),
                all == self@.notes,
                (NotesView { notes: all.take(i as int), next_id: self@.next_id }).has_agenda(
                    views(list@),
                    owner_chat,
                    today@,
                ),
            decreases self.items@.len() - i,
        {
            let note = &self.items[i];
            let ghost before = views(list@);
            let ghost seen = NotesView { notes: all.take(i + 1), next_id: self@.next_id };
            proof {
                assert(seen.notes.drop_last() =~= all.take(i as int));
                assert(seen.notes.last() == note@);
                assert forall|a: int| 0 <= a < before.len() implies (#[trigger] before[a]).deadline
                    is Some by {
                    assert(before.contains(before[a]));
                }
            }
            let due = match note.deadline() {
                Some(date) => note.owner_chat() == owner_chat && date.within_week_from(today),
                None => false,
            };
            if due {
                let date = note.deadline().unwrap();
                let mut at: usize = list.len();
                while at > 0
                    invariant
                        at <= list@.len(),
                        before == views(list@),
                        forall|a: int| 0 <= a < before.len() ==> (#[trigger] before[a]).deadline is Some,
                        forall|a: int|
                            at <= a < before.len() ==> date@.before(
                                (#[trigger] before[a]).deadline->0,
                            ),
                    ensures
                        at <= list@.len(),
                        forall|a: int|
                            at <= a < before.len() ==> date@.before(
                                (#[trigger] before[a]).deadline->0,
                            ),
                        at > 0 ==> !date@.before(before[at - 1].deadline->0),
                    decreases at,
                {
                    assert(before[at - 1] == list@[at - 1]@);
                    let later = match list[at - 1].deadline() {
                        Some(other) => date.before(&other),
                        None => false,
                    };
                    if !later {
                        break;
                    }
                    at = at - 1;
                }
                proof {
                    lemma_agenda_grows(seen, before, owner_chat, today@, at as int);
                }
                list.insert(at, note);
                assert(views(list@) =~= before.insert(at as int, note@));
            } else {
                proof {
                    lemma_agenda_grows(seen, before, owner_chat, today@, 0);
                }
            }
            i = i + 1;
        }
        proof {
            assert(all.take(i as int) =~= all);
            lemma_agenda_unique(
                self@,
                views(list@),
                self@.agenda(owner_chat, today@),
                owner_chat,
                today@,
            );
        }
        list
    }
}

proof fn lemma_steps_ascend(notes: Seq<NoteView>, a: int, b: int)
    requires
        forall|k: int| 1 <= k < notes.len() ==> (#[trigger] notes[k - 1]).id < notes[k].id,
        0 <= a < b < notes.len(),
    ensures
        notes[a].id < notes[b].id,
    decreases b - a,
{
    assert(notes[b - 1].id < notes[b].id);
    if a < b - 1 {
        lemma_steps_ascend(notes, a, b - 1);
    }
}

} // verus!
