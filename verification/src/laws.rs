//! What holds of the collection across several operations.

use crate::bot::{Command, REPLY_CHANGED, REPLY_OK, REPLY_UNKNOWN_ID};
use crate::date::{date_of_text, iso_shaped, ymd_of_iso, Ymd};
use crate::error::Error;
use crate::gate::save_due;
use crate::note::NoteView;
use crate::notes::{ascending, due_before, listing, NotesView};
use crate::state::{state_of_token, State};
use vstd::prelude::*;

verus! {

/// One change of the collection.
pub enum Step {
    /// A note is created for a chat.
    Create { header: Seq<char>, owner_chat: u64 },
    /// The note with the identifier is deleted.
    Delete { id: u64 },
    /// The note with the identifier is rewritten through its handle.
    Change { id: u64, note: NoteView },
}

impl Step {
    /// The collection can take the step: a creation needs a counter that can
    /// still move on, and a rewritten note keeps its identifier and is well formed.
    pub open spec fn allowed(self, notes: NotesView) -> bool {
        match self {
            Step::Create { .. } => notes.next_id < u64::MAX,
            Step::Delete { .. } => true,
            Step::Change { id, note } => notes.has(id) ==> note.id == id && note.wf(),
        }
    }
}

impl NotesView {
    /// The collection after one step.
    pub open spec fn step(self, step: Step) -> NotesView {
        match step {
            Step::Create { header, owner_chat } => self.created(header, owner_chat),
            Step::Delete { id } => self.deleted(id),
            Step::Change { id, note } => if self.has(id) {
                self.with_note(id, note)
            } else {
                self
            },
        }
    }

    /// The collection after a run of steps.
    pub open spec fn run(self, steps: Seq<Step>) -> NotesView
        decreases steps.len(),
    {
        if steps.len() == 0 {
            self
        } else {
            self.run(steps.drop_last()).step(steps.last())
        }
    }

    /// Every step of the run is allowed where it is taken.
    pub open spec fn admits(self, steps: Seq<Step>) -> bool {
        forall|k: int| 0 <= k < steps.len() ==> (#[trigger] steps[k]).allowed(self.run(steps.take(k)))
    }

    /// The identifier that the step at `k` gives to its note, if it creates one:
    /// the counter as it stands when the step is taken.
    pub open spec fn issued(self, steps: Seq<Step>, k: int) -> u64 {
        self.run(steps.take(k)).next_id
    }
}

/// A well-formed collection finds a note by its identifier at one place only.
pub proof fn lemma_position(notes: NotesView, i: int)
    requires
        notes.wf(),
        0 <= i < notes.notes.len(),
    ensures
        notes.has(notes.notes[i].id),
        notes.position(notes.notes[i].id) == i,
        notes.lookup(notes.notes[i].id) == Some(notes.notes[i]),
{
    let id = notes.notes[i].id;
    let at = notes.position(id);
    if at < i {
        assert(notes.notes[at].id < notes.notes[i].id);
    } else if i < at {
        assert(notes.notes[i].id < notes.notes[at].id);
    }
}

/// Each step keeps the collection well formed, never lowers the counter, and
/// gives a created note an identifier that no note of the collection has.
pub proof fn lemma_step(notes: NotesView, step: Step)
    requires
        notes.wf(),
        step.allowed(notes),
    ensures
        notes.step(step).wf(),
        notes.next_id <= notes.step(step).next_id,
        step is Create ==> !notes.has(notes.next_id) && notes.step(step).lookup(notes.next_id)
            is Some && notes.step(step).next_id == notes.next_id + 1,
{
    let after = notes.step(step);
    match step {
        Step::Create { header, owner_chat } => {
            let at = notes.notes.len() as int;
            assert(after.notes[at].id == notes.next_id);
            lemma_position(after, at);
        },
        Step::Delete { id } => {
            if notes.has(id) {
                let at = notes.position(id);
                assert forall|i: int, j: int| 0 <= i < j < after.notes.len() implies after.notes[i].id
                    < after.notes[j].id by {
                    let a = if i < at {
                        i
                    } else {
                        i + 1
                    };
                    let b = if j < at {
                        j
                    } else {
                        j + 1
                    };
                    assert(notes.notes[a].id < notes.notes[b].id);
                }
            }
        },
        Step::Change { id, note } => {},
    }
}

/// A run of allowed steps keeps the collection well formed and never lowers the counter.
pub proof fn lemma_run(notes: NotesView, steps: Seq<Step>)
    requires
        notes.wf(),
        notes.admits(steps),
    ensures
        notes.run(steps).wf(),
        notes.next_id <= notes.run(steps).next_id,
    decreases steps.len(),
{
    if steps.len() > 0 {
        let first = steps.drop_last();
        assert forall|k: int| 0 <= k < first.len() implies (#[trigger] first[k]).allowed(
            notes.run(first.take(k)),
        ) by {
            assert(first.take(k) =~= steps.take(k));
            assert(steps[k].allowed(notes.run(steps.take(k))));
        }
        lemma_run(notes, first);
        assert(steps.take(steps.len() - 1) =~= first);
        assert(steps[steps.len() - 1].allowed(notes.run(first)));
        lemma_step(notes.run(first), steps.last());
    }
}

/// Identifiers are given out once and in ascending order: of two creations in a
/// run of steps, whatever else happens between them, the later one gets the
/// greater identifier, and no identifier is given that a note of the collection
/// holds at that moment.
pub proof fn lemma_created_ids_ascend(notes: NotesView, steps: Seq<Step>, i: int, j: int)
    requires
        notes.wf(),
        notes.admits(steps),
        0 <= i < j < steps.len(),
        steps[i] is Create,
        steps[j] is Create,
    ensures
        notes.issued(steps, i) < notes.issued(steps, j),
        !notes.run(steps.take(j)).has(notes.issued(steps, j)),
{
    let upto_i = steps.take(i);
    let upto_j = steps.take(j);
    lemma_admits_prefix(notes, steps, i);
    lemma_admits_prefix(notes, steps, j);
    lemma_run(notes, upto_i);
    lemma_run(notes, upto_j);
    let at_i = notes.run(upto_i);
    assert(steps[i].allowed(at_i));
    lemma_step(at_i, steps[i]);
    // The steps after the creation at `i`, up to `j`, start from the collection
    // that holds the new note.
    let next = steps.take(i + 1);
    assert(next.drop_last() =~= upto_i);
    assert(notes.run(next) == at_i.step(steps[i]));
    lemma_run_split(notes, upto_j, i + 1);
    assert(upto_j.take(i + 1) =~= next);
    let rest = upto_j.skip(i + 1);
    assert forall|k: int| 0 <= k < rest.len() implies (#[trigger] rest[k]).allowed(
        notes.run(next).run(rest.take(k)),
    ) by {
        let whole = steps.take(i + 1 + k);
        lemma_run_split(notes, whole, i + 1);
        assert(whole.take(i + 1) =~= next);
        assert(whole.skip(i + 1) =~= rest.take(k));
        assert(steps[i + 1 + k].allowed(notes.run(whole)));
    }
    lemma_admits_prefix(notes, steps, i + 1);
    lemma_run(notes, next);
    lemma_run(notes.run(next), rest);
    let at_j = notes.run(upto_j);
    assert(steps[j].allowed(at_j));
    lemma_step(at_j, steps[j]);
}

/// A run can be taken in two parts.
pub proof fn lemma_run_split(notes: NotesView, steps: Seq<Step>, k: int)
    requires
        0 <= k <= steps.len(),
    ensures
        notes.run(steps) == notes.run(steps.take(k)).run(steps.skip(k)),
    decreases steps.len(),
{
    if k == steps.len() {
        assert(steps.take(k) =~= steps);
        assert(steps.skip(k).len() == 0);
    } else {
        let first = steps.drop_last();
        lemma_run_split(notes, first, k);
        assert(first.take(k) =~= steps.take(k));
        assert(first.skip(k) =~= steps.skip(k).drop_last());
        assert(steps.skip(k).last() == steps.last());
    }
}

proof fn lemma_admits_prefix(notes: NotesView, steps: Seq<Step>, n: int)
    requires
        notes.admits(steps),
        0 <= n <= steps.len(),
    ensures
        notes.admits(steps.take(n)),
{
    let first = steps.take(n);
    assert forall|k: int| 0 <= k < first.len() implies (#[trigger] first[k]).allowed(
        notes.run(first.take(k)),
    ) by {
        assert(first.take(k) =~= steps.take(k));
        assert(steps[k].allowed(notes.run(steps.take(k))));
    }
}

/// After a deletion the identifier finds no note, whether it found one before or not.
pub proof fn lemma_deleted_is_absent(notes: NotesView, id: u64)
    requires
        notes.wf(),
    ensures
        notes.deleted(id).lookup(id) is None,
        notes.deleted(id).wf(),
        notes.deleted(id).deleted(id) == notes.deleted(id),
{
    lemma_step(notes, Step::Delete { id });
    let after = notes.deleted(id);
    if notes.has(id) {
        let at = notes.position(id);
        if after.has(id) {
            let k = after.position(id);
            let origin = if k < at {
                k
            } else {
                k + 1
            };
            assert(notes.notes[origin].id == id);
            lemma_position(notes, origin);
        }
    }
}

/// A deletion leaves every other note as it was.
pub proof fn lemma_deleted_keeps_others(notes: NotesView, id: u64, other: u64)
    requires
        notes.wf(),
        other != id,
    ensures
        notes.deleted(id).lookup(other) == notes.lookup(other),
{
    let after = notes.deleted(id);
    lemma_step(notes, Step::Delete { id });
    if notes.has(id) {
        let at = notes.position(id);
        if notes.has(other) {
            let k = notes.position(other);
            let dest = if k < at {
                k
            } else {
                k - 1
            };
            assert(after.notes[dest] == notes.notes[k]);
            lemma_position(after, dest);
        }
        if after.has(other) {
            let k = after.position(other);
            let origin = if k < at {
                k
            } else {
                k + 1
            };
            assert(notes.notes[origin] == after.notes[k]);
            lemma_position(notes, origin);
        }
    }
}

/// What is written through the handle of a note is what its identifier finds
/// afterwards.
pub proof fn lemma_written_is_read(notes: NotesView, id: u64, note: NoteView)
    requires
        notes.wf(),
        notes.has(id),
        note.id == id,
        note.wf(),
    ensures
        notes.with_note(id, note).wf(),
        notes.with_note(id, note).lookup(id) == Some(note),
{
    let after = notes.with_note(id, note);
    let at = notes.position(id);
    assert(after.notes[at] == note);
    lemma_position(after, at);
}

/// Writing through the handle of a note leaves every other note as it was.
pub proof fn lemma_written_keeps_others(notes: NotesView, id: u64, note: NoteView, other: u64)
    requires
        notes.wf(),
        notes.has(id),
        note.id == id,
        note.wf(),
        other != id,
    ensures
        notes.with_note(id, note).lookup(other) == notes.lookup(other),
{
    let after = notes.with_note(id, note);
    lemma_written_is_read(notes, id, note);
    if notes.has(other) {
        let k = notes.position(other);
        assert(after.notes[k] == notes.notes[k]);
        lemma_position(after, k);
    }
    if after.has(other) {
        let k = after.position(other);
        assert(notes.notes[k] == after.notes[k]);
        lemma_position(notes, k);
    }
}

/// Writing a note back as it was changes nothing.
pub proof fn lemma_written_back(notes: NotesView, id: u64)
    requires
        notes.has(id),
    ensures
        notes.with_note(id, notes.notes[notes.position(id)]) == notes,
{
    assert(notes.with_note(id, notes.notes[notes.position(id)]).notes =~= notes.notes);
}

/// A list of a chat holds exactly the notes of the collection that pass its
/// test, in the order of the collection.
pub proof fn lemma_listed(notes: NotesView, chat: u64, only_open: bool, note: NoteView)
    ensures
        notes.listed(chat, only_open).contains(note) <==> notes.notes.contains(note) && listing(
            chat,
            only_open,
        )(note),
        ascending(notes.notes) ==> ascending(notes.listed(chat, only_open)),
    decreases notes.notes.len(),
{
    reveal(Seq::filter);
    let pred = listing(chat, only_open);
    let all = notes.notes;
    if all.len() > 0 {
        let first = NotesView { notes: all.drop_last(), next_id: notes.next_id };
        lemma_listed(first, chat, only_open, note);
        let sub = first.listed(chat, only_open);
        let list = notes.listed(chat, only_open);
        if all.contains(note) && pred(note) {
            let k = choose|k: int| 0 <= k < all.len() && all[k] == note;
            if k < all.len() - 1 {
                assert(all.drop_last()[k] == note);
                let a = choose|a: int| 0 <= a < sub.len() && sub[a] == note;
                assert(list[a] == note);
            } else {
                assert(list.last() == note);
            }
        }
        if list.contains(note) {
            let a = choose|a: int| 0 <= a < list.len() && list[a] == note;
            if a < sub.len() {
                assert(sub[a] == note);
                let k = choose|k: int| 0 <= k < all.drop_last().len() && all.drop_last()[k] == note;
                assert(all[k] == note);
            } else {
                assert(all[all.len() - 1] == note);
            }
        }
        if ascending(all) {
            assert forall|i: int, j: int| 0 <= i < j < all.drop_last().len() implies all.drop_last()[i].id
                < all.drop_last()[j].id by {
                assert(all[i].id < all[j].id);
            }
            assert forall|i: int, j: int| 0 <= i < j < list.len() implies list[i].id
                < list[j].id by {
                if j < sub.len() {
                    assert(sub[i].id < sub[j].id);
                } else {
                    lemma_listed(first, chat, only_open, sub[i]);
                    assert(sub.contains(sub[i]));
                    let k = choose|k: int| 0 <= k < all.drop_last().len() && all.drop_last()[k] == sub[i];
                    assert(all[k].id < all[all.len() - 1].id);
                }
            }
        }
    }
}

/// The list of open notes never holds a note that is done; the full list of its
/// chat always holds it.
pub proof fn lemma_done_notes_listed(notes: NotesView, chat: u64, note: NoteView)
    requires
        note.state == State::Done,
    ensures
        !notes.open_in(chat).contains(note),
        notes.notes.contains(note) && note.owner_chat == chat ==> notes.all_in(chat).contains(note),
        notes.all_in(chat).contains(note) ==> notes.notes.contains(note) && note.owner_chat == chat,
{
    lemma_listed(notes, chat, true, note);
    lemma_listed(notes, chat, false, note);
}

/// An agenda holds a note exactly if the note is in the collection, belongs to
/// the chat, has a deadline, and the deadline is not before today and not after
/// the seventh day from today. A note without a deadline is in no agenda.
pub proof fn lemma_agenda_membership(
    notes: NotesView,
    list: Seq<NoteView>,
    chat: u64,
    today: Ymd,
    note: NoteView,
)
    requires
        notes.has_agenda(list, chat, today),
    ensures
        list.contains(note) <==> notes.notes.contains(note) && note.owner_chat == chat && (
        note.deadline matches Some(date) && today.not_after(date) && date.not_after(
            today.plus_days(7),
        )),
        note.deadline is None ==> !list.contains(note),
{
}

/// The place of a note due on `date` in an agenda: behind every note that is
/// not due later.
pub open spec fn slot(list: Seq<NoteView>, date: Ymd) -> int
    decreases list.len(),
{
    if list.len() == 0 {
        0
    } else if list.last().deadline matches Some(other) && date.before(other) {
        slot(list.drop_last(), date)
    } else {
        list.len() as int
    }
}

proof fn lemma_slot(list: Seq<NoteView>, date: Ymd)
    ensures
        0 <= slot(list, date) <= list.len(),
        forall|a: int|
            slot(list, date) <= a < list.len() ==> (#[trigger] list[a]).deadline is Some
                && date.before(list[a].deadline->0),
        slot(list, date) > 0 ==> !(list[slot(list, date) - 1].deadline matches Some(other)
            && date.before(other)),
    decreases list.len(),
{
    if list.len() > 0 && (list.last().deadline matches Some(other) && date.before(other)) {
        let first = list.drop_last();
        lemma_slot(first, date);
        assert forall|a: int| slot(list, date) <= a < list.len() implies (#[trigger] list[a]).deadline
            is Some && date.before(list[a].deadline->0) by {
            if a < first.len() {
                assert(first[a] == list[a]);
            }
        }
        if slot(list, date) > 0 {
            assert(first[slot(list, date) - 1] == list[slot(list, date) - 1]);
        }
    }
}

/// How an agenda grows with the collection. Let `before` be the agenda of the
/// collection without its last note. Where the last note is not due, `before`
/// is the agenda of the whole collection; where it is due, the agenda is
/// `before` with the last note put in at `at`, the place behind every note
/// that is not due later.
pub proof fn lemma_agenda_grows(
    notes: NotesView,
    before: Seq<NoteView>,
    chat: u64,
    today: Ymd,
    at: int,
)
    requires
        notes.notes.len() > 0,
        ascending(notes.notes),
        (NotesView { notes: notes.notes.drop_last(), next_id: notes.next_id }).has_agenda(
            before,
            chat,
            today,
        ),
        notes.notes.last().is_due_in(chat, today) ==> {
            &&& 0 <= at <= before.len()
            &&& forall|a: int|
                at <= a < before.len() ==> (#[trigger] before[a]).deadline is Some
                    && notes.notes.last().deadline->0.before(before[a].deadline->0)
            &&& at > 0 ==> !(before[at - 1].deadline matches Some(other)
                && notes.notes.last().deadline->0.before(other))
        },
    ensures
        notes.notes.last().is_due_in(chat, today) ==> notes.has_agenda(
            before.insert(at, notes.notes.last()),
            chat,
            today,
        ),
        !notes.notes.last().is_due_in(chat, today) ==> notes.has_agenda(before, chat, today),
{
    let all = notes.notes;
    let first = NotesView { notes: all.drop_last(), next_id: notes.next_id };
    let last = all.last();
    assert forall|n: NoteView| all.contains(n) <==> first.notes.contains(n) || n == last by {
        if all.contains(n) {
            let k = choose|k: int| 0 <= k < all.len() && all[k] == n;
            if k < all.len() - 1 {
                assert(first.notes[k] == n);
            }
        }
        if first.notes.contains(n) {
            let k = choose|k: int| 0 <= k < first.notes.len() && first.notes[k] == n;
            assert(all[k] == n);
        }
        if n == last {
            assert(all[all.len() - 1] == n);
        }
    }
    if !last.is_due_in(chat, today) {
        assert forall|n: NoteView| #[trigger]
            before.contains(n) <==> all.contains(n) && n.is_due_in(chat, today) by {
            assert(before.contains(n) <==> first.notes.contains(n) && n.is_due_in(chat, today));
        }
    } else {
        let after = before.insert(at, last);
        assert forall|a: int| 0 <= a < before.len() implies (#[trigger] before[a]).id < last.id
            && before[a].deadline is Some by {
            assert(before.contains(before[a]));
            let k = choose|k: int| 0 <= k < first.notes.len() && first.notes[k] == before[a];
            assert(all[k].id < all[all.len() - 1].id);
        }
        assert forall|a: int| 0 <= a < at implies due_before(#[trigger] before[a], last) by {
            if a < at - 1 {
                assert(due_before(before[a], before[at - 1]));
            }
        }
        assert forall|a: int, b: int| 0 <= a < b < after.len() implies due_before(
            after[a],
            after[b],
        ) by {
            if b < at {
                assert(due_before(before[a], before[b]));
            } else if b == at {
                assert(due_before(before[a], last));
            } else if a == at {
                assert(after[b] == before[b - 1]);
            } else if a < at {
                assert(due_before(before[a], before[b - 1]));
            } else {
                assert(due_before(before[a - 1], before[b - 1]));
            }
        }
        assert forall|n: NoteView| #[trigger]
            after.contains(n) <==> all.contains(n) && n.is_due_in(chat, today) by {
            assert(before.contains(n) <==> first.notes.contains(n) && n.is_due_in(chat, today));
            if after.contains(n) {
                let a = choose|a: int| 0 <= a < after.len() && after[a] == n;
                if a < at {
                    assert(before[a] == n);
                } else if a > at {
                    assert(before[a - 1] == n);
                }
            }
            if before.contains(n) {
                let a = choose|a: int| 0 <= a < before.len() && before[a] == n;
                if a < at {
                    assert(after[a] == n);
                } else {
                    assert(after[a + 1] == n);
                }
            }
            if n == last {
                assert(after[at] == n);
            }
        }
    }
}

/// A well-formed collection has an agenda for every chat and every day.
pub proof fn lemma_agenda_exists(notes: NotesView, chat: u64, today: Ymd)
    requires
        ascending(notes.notes),
    ensures
        notes.has_agenda(notes.agenda(chat, today), chat, today),
    decreases notes.notes.len(),
{
    let all = notes.notes;
    if all.len() == 0 {
        let none = Seq::<NoteView>::empty();
        assert(notes.has_agenda(none, chat, today));
    } else {
        let first = NotesView { notes: all.drop_last(), next_id: notes.next_id };
        let last = all.last();
        assert forall|i: int, j: int| 0 <= i < j < first.notes.len() implies first.notes[i].id
            < first.notes[j].id by {
            assert(all[i].id < all[j].id);
        }
        lemma_agenda_exists(first, chat, today);
        let before = first.agenda(chat, today);
        if last.is_due_in(chat, today) {
            let at = slot(before, last.deadline->0);
            lemma_slot(before, last.deadline->0);
            lemma_agenda_grows(notes, before, chat, today, at);
        } else {
            lemma_agenda_grows(notes, before, chat, today, 0);
        }
    }
}

/// The agenda of a well-formed collection holds a note exactly if the note is
/// in the collection, belongs to the chat and has a deadline that is not before
/// today and not after the seventh day from today; it holds each such note
/// once, the earlier deadline first and, on the same day, the smaller
/// identifier first.
pub proof fn lemma_agenda(notes: NotesView, chat: u64, today: Ymd, note: NoteView)
    requires
        notes.wf(),
    ensures
        notes.agenda(chat, today).contains(note) <==> notes.notes.contains(note)
            && note.owner_chat == chat && (note.deadline matches Some(date) && today.not_after(
            date,
        ) && date.not_after(today.plus_days(7))),
        forall|i: int, j: int|
            0 <= i < j < notes.agenda(chat, today).len() ==> due_before(
                notes.agenda(chat, today)[i],
                notes.agenda(chat, today)[j],
            ),
{
    lemma_agenda_exists(notes, chat, today);
    lemma_agenda_membership(notes, notes.agenda(chat, today), chat, today, note);
}

/// A collection has one agenda only for a chat and a day.
pub proof fn lemma_agenda_unique(
    notes: NotesView,
    first: Seq<NoteView>,
    second: Seq<NoteView>,
    chat: u64,
    today: Ymd,
)
    requires
        notes.has_agenda(first, chat, today),
        notes.has_agenda(second, chat, today),
    ensures
        first == second,
{
    assert forall|n: NoteView|
        #![trigger first.contains(n)]
        #![trigger second.contains(n)]
        first.contains(n) <==> second.contains(n) by {
        assert(first.contains(n) <==> notes.notes.contains(n) && n.is_due_in(chat, today));
        assert(second.contains(n) <==> notes.notes.contains(n) && n.is_due_in(chat, today));
    }
    lemma_same_members_same_list(first, second);
}

proof fn lemma_same_members_same_list(first: Seq<NoteView>, second: Seq<NoteView>)
    requires
        forall|i: int, j: int| 0 <= i < j < first.len() ==> due_before(first[i], first[j]),
        forall|i: int, j: int| 0 <= i < j < second.len() ==> due_before(second[i], second[j]),
        forall|n: NoteView|
            #![trigger first.contains(n)]
            #![trigger second.contains(n)]
            first.contains(n) <==> second.contains(n),
    ensures
        first == second,
    decreases first.len(),
{
    if first.len() == 0 {
        if second.len() > 0 {
            assert(second.contains(second[0]));
        }
        assert(first =~= second);
    } else {
        let top = first.last();
        assert(first.contains(top));
        let at = choose|k: int| 0 <= k < second.len() && second[k] == top;
        if at < second.len() - 1 {
            let above = second.last();
            assert(second.contains(above));
            let k = choose|k: int| 0 <= k < first.len() && first[k] == above;
            assert(due_before(top, above));
            if k < first.len() - 1 {
                assert(due_before(first[k], top));
            }
        }
        let a = first.drop_last();
        let b = second.drop_last();
        assert(second[at] == top);
        assert(at == second.len() - 1);
        assert forall|n: NoteView|
            #![trigger a.contains(n)]
            #![trigger b.contains(n)]
            a.contains(n) <==> b.contains(n) by {
            if a.contains(n) {
                let k = choose|k: int| 0 <= k < a.len() && a[k] == n;
                assert(due_before(first[k], top));
                assert(first.contains(n));
                let m = choose|m: int| 0 <= m < second.len() && second[m] == n;
                assert(b[m] == n);
            }
            if b.contains(n) {
                let k = choose|k: int| 0 <= k < b.len() && b[k] == n;
                assert(due_before(second[k], top));
                assert(second.contains(n));
                let m = choose|m: int| 0 <= m < first.len() && first[m] == n;
                assert(a[m] == n);
            }
        }
        lemma_same_members_same_list(a, b);
        assert(first =~= a.push(top));
        assert(second =~= b.push(top));
    }
}

/// Storing a collection and rebuilding it gives the same notes and the same counter.
pub proof fn lemma_restored_is_same(notes: NotesView)
    requires
        notes.wf(),
    ensures
        NotesView::restored(notes.notes, notes.next_id) == Some(notes),
{
}

/// A rebuilt collection never has a counter below the stored one, nor one that
/// a stored note has reached.
pub proof fn lemma_restored_counter(notes: Seq<NoteView>, next_id: u64, i: int)
    requires
        NotesView::restored(notes, next_id) is Some,
        0 <= i < notes.len(),
    ensures
        NotesView::restored(notes, next_id)->0.next_id >= next_id,
        NotesView::restored(notes, next_id)->0.next_id > notes[i].id,
        NotesView::restored(notes, next_id)->0.notes == notes,
{
    if i < notes.len() - 1 {
        assert(notes[i].id < notes[notes.len() - 1].id);
    }
}

/// A token that names no state leaves the collection as it was, whatever the
/// identifier; where the note exists, the failure is the invalid state.
pub proof fn lemma_unknown_token_changes_nothing(
    notes: NotesView,
    chat: u64,
    id: u64,
    token: String,
)
    requires
        state_of_token(token@) is None,
    ensures
        notes.after(chat, Command::SetState(id, token)) == notes,
        notes.has(id) ==> notes.failure(Command::SetState(id, token)) == Some(
            Error::InvalidState,
        ),
{
}

/// A text that is not of the form `YYYY-MM-DD`, or whose digits spell no day of
/// the calendar, leaves the collection as it was and fails as an invalid date.
pub proof fn lemma_bad_date_changes_nothing(notes: NotesView, chat: u64, id: u64, text: String)
    requires
        !iso_shaped(text@) || !ymd_of_iso(text@).valid(),
    ensures
        date_of_text(text@) is None,
        notes.after(chat, Command::SetDead(id, text)) == notes,
        notes.failure(Command::SetDead(id, text)) == Some(Error::InvalidDate),
{
}

/// After a deadline was set from a text that spells a day of the calendar, the
/// note has exactly that day as its deadline, and nothing else of it has changed.
pub proof fn lemma_deadline_is_read_back(notes: NotesView, chat: u64, id: u64, text: String)
    requires
        notes.wf(),
        notes.has(id),
        iso_shaped(text@),
        ymd_of_iso(text@).valid(),
    ensures
        notes.failure(Command::SetDead(id, text)) is None,
        notes.after(chat, Command::SetDead(id, text)).wf(),
        notes.after(chat, Command::SetDead(id, text)).lookup(id) == Some(
            NoteView { deadline: Some(ymd_of_iso(text@)), ..notes.lookup(id)->0 },
        ),
{
    let old_note = notes.lookup(id)->0;
    lemma_position(notes, notes.position(id));
    lemma_written_is_read(notes, id, NoteView { deadline: Some(ymd_of_iso(text@)), ..old_note });
}

/// A command that names a note which does not exist changes nothing; but for a
/// deletion, which is answered as done, it fails as not found and is answered
/// with the unknown identifier.
pub proof fn lemma_unknown_id(notes: NotesView, chat: u64, today: Ymd, id: u64, command: Command)
    requires
        command.target() == Some(id),
        !notes.has(id),
        !(command is SetDead),
    ensures
        notes.after(chat, command) == notes,
        command is Delete ==> notes.failure(command) is None && notes.replies(
            chat,
            today,
            command,
        ) == seq![REPLY_OK@],
        !(command is Delete) ==> notes.failure(command) == Some(Error::NotFound) && notes.replies(
            chat,
            today,
            command,
        ) == seq![REPLY_UNKNOWN_ID@],
{
}

/// Only a creation moves the counter and only a creation asks for a save: the
/// one that gives out a multiple of five.
pub proof fn lemma_counter_and_save(notes: NotesView, chat: u64, command: Command)
    requires
        notes.wf(),
        command is Create ==> notes.next_id < u64::MAX,
    ensures
        command is Create ==> notes.after(chat, command).next_id == notes.next_id + 1,
        !(command is Create) ==> notes.after(chat, command).next_id == notes.next_id,
        notes.save_before(command) <==> command is Create && notes.next_id % 5 == 0,
{
}

/// A command that only asks leaves the collection as it was and never fails,
/// but for showing a note that does not exist.
pub proof fn lemma_queries_change_nothing(notes: NotesView, chat: u64, command: Command)
    requires
        command is Help || command is Show || command is List || command is ListAll
            || command is Agenda,
    ensures
        notes.after(chat, command) == notes,
        !(command is Show) ==> notes.failure(command) is None,
{
}

/// A change of a note that exists is answered as changed, also where the token
/// names no state.
pub proof fn lemma_change_reply(notes: NotesView, chat: u64, today: Ymd, id: u64, token: String)
    requires
        notes.has(id),
    ensures
        notes.replies(chat, today, Command::SetState(id, token)) == seq![REPLY_CHANGED@],
{
}

} // verus!
