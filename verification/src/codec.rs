//! The collection as bytes, for storage, and back.
//!
//! A number takes eight bytes, least significant first. A text is the number of
//! its UTF-8 bytes, then the bytes. A note is its identifier, its chat, one byte
//! for its state, its deadline, its header and its text. A deadline is the byte
//! 0 where there is none, else the byte 1, the year counted from the least year
//! of 32 bits, and one byte each for month and day. The collection is its
//! counter, the number of its notes, and the notes in ascending order.

use crate::date::{date_of_ymd, Date, Ymd};
use crate::error::Error;
use crate::note::{Note, NoteView};
use crate::notes::{models, Notes, NotesView};
use crate::state::State;
use vstd::bytes::{
    lemma_auto_spec_u64_to_from_le_bytes, spec_u64_from_le_bytes, spec_u64_to_le_bytes,
    u64_from_le_bytes, u64_to_le_bytes,
};
use vstd::prelude::*;
use vstd::slice::slice_subrange;
use vstd::string::StringSliceAdditionalSpecFns;
use vstd::utf8::{
    decode_utf8, encode_utf8, encode_utf8_decode_utf8, encode_utf8_valid_utf8, valid_utf8,
};

verus! {

/// The distance from the least year of 32 bits to the year 0.
pub const YEAR_BASE: u64 = 2_147_483_648;

/// A number as bytes.
pub open spec fn number_bytes(x: u64) -> Seq<u8> {
    spec_u64_to_le_bytes(x)
}

/// A text as bytes.
pub open spec fn text_bytes(text: Seq<char>) -> Seq<u8> {
    number_bytes(encode_utf8(text).len() as u64) + encode_utf8(text)
}

/// The byte that stands for a state.
pub open spec fn state_byte(state: State) -> u8 {
    match state {
        State::ToDo => 0,
        State::Doing => 1,
        State::Done => 2,
    }
}

/// A deadline as bytes.
pub open spec fn deadline_bytes(deadline: Option<Ymd>) -> Seq<u8> {
    match deadline {
        None => seq![0u8],
        Some(date) => seq![1u8] + number_bytes((date.year + YEAR_BASE) as u64) + seq![
            date.month as u8,
            date.day as u8,
        ],
    }
}

/// A note as bytes.
#[verifier::opaque]
pub open spec fn note_bytes(note: NoteView) -> Seq<u8> {
    number_bytes(note.id) + number_bytes(note.owner_chat) + seq![state_byte(note.state)]
        + deadline_bytes(note.deadline) + text_bytes(note.header) + text_bytes(note.text)
}

/// Notes as bytes, one after the other.
pub open spec fn notes_bytes(notes: Seq<NoteView>) -> Seq<u8>
    decreases notes.len(),
{
    if notes.len() == 0 {
        Seq::empty()
    } else {
        notes_bytes(notes.drop_last()) + note_bytes(notes.last())
    }
}

/// The collection as bytes.
pub open spec fn encoded(notes: NotesView) -> Seq<u8> {
    number_bytes(notes.next_id) + number_bytes(notes.notes.len() as u64) + notes_bytes(notes.notes)
}

/// The note can be stored: its texts are short enough for their length to be
/// written down, and the year of its deadline has 32 bits.
pub open spec fn storable(note: NoteView) -> bool {
    &&& encode_utf8(note.header).len() <= u64::MAX
    &&& encode_utf8(note.text).len() <= u64::MAX
    &&& note.deadline matches Some(date) ==> i32::MIN <= date.year <= i32::MAX
}

impl NotesView {
    /// The collection can be stored: each note can, and their number can be
    /// written down.
    pub open spec fn storable(self) -> bool {
        &&& self.notes.len() <= u64::MAX
        &&& forall|i: int| 0 <= i < self.notes.len() ==> storable(#[trigger] self.notes[i])
    }
}

/// Reads a number from the front of the bytes; gives it with the bytes that follow.
pub open spec fn read_number(bytes: Seq<u8>) -> Option<(u64, Seq<u8>)> {
    if bytes.len() >= 8 {
        Some((spec_u64_from_le_bytes(bytes.take(8)), bytes.skip(8)))
    } else {
        None
    }
}

/// Reads one byte.
pub open spec fn read_byte(bytes: Seq<u8>) -> Option<(u8, Seq<u8>)> {
    if bytes.len() >= 1 {
        Some((bytes[0], bytes.skip(1)))
    } else {
        None
    }
}

/// Reads a text.
pub open spec fn read_text(bytes: Seq<u8>) -> Option<(Seq<char>, Seq<u8>)> {
    match read_number(bytes) {
        Some((len, rest)) => if len <= rest.len() && valid_utf8(rest.take(len as int)) {
            Some((decode_utf8(rest.take(len as int)), rest.skip(len as int)))
        } else {
            None
        },
        None => None,
    }
}

/// Reads a state.
pub open spec fn read_state(bytes: Seq<u8>) -> Option<(State, Seq<u8>)> {
    match read_byte(bytes) {
        Some((byte, rest)) => if byte == 0 {
            Some((State::ToDo, rest))
        } else if byte == 1 {
            Some((State::Doing, rest))
        } else if byte == 2 {
            Some((State::Done, rest))
        } else {
            None
        },
        None => None,
    }
}

/// Reads the year, month and day of a deadline; only a day of the calendar is accepted.
pub open spec fn read_date(bytes: Seq<u8>) -> Option<(Ymd, Seq<u8>)> {
    match read_number(bytes) {
        Some((year, after_year)) => match read_byte(after_year) {
            Some((month, after_month)) => match read_byte(after_month) {
                Some((day, rest)) => if year < 2 * YEAR_BASE {
                    match date_of_ymd((year - YEAR_BASE) as i32, month as u32, day as u32) {
                        Some(date) => Some((date, rest)),
                        None => None,
                    }
                } else {
                    None
                },
                None => None,
            },
            None => None,
        },
        None => None,
    }
}

/// Reads a deadline.
pub open spec fn read_deadline(bytes: Seq<u8>) -> Option<(Option<Ymd>, Seq<u8>)> {
    match read_byte(bytes) {
        Some((flag, rest)) => if flag == 0 {
            Some((None, rest))
        } else if flag == 1 {
            match read_date(rest) {
                Some((date, after)) => Some((Some(date), after)),
                None => None,
            }
        } else {
            None
        },
        None => None,
    }
}

/// Reads a note.
#[verifier::opaque]
pub open spec fn read_note(bytes: Seq<u8>) -> Option<(NoteView, Seq<u8>)> {
    match read_number(bytes) {
        Some((id, b1)) => match read_number(b1) {
            Some((owner_chat, b2)) => match read_state(b2) {
                Some((state, b3)) => match read_deadline(b3) {
                    Some((deadline, b4)) => match read_text(b4) {
                        Some((header, b5)) => match read_text(b5) {
                            Some((text, rest)) => Some(
                                (NoteView { id, owner_chat, header, text, state, deadline }, rest),
                            ),
                            None => None,
                        },
                        None => None,
                    },
                    None => None,
                },
                None => None,
            },
            None => None,
        },
        None => None,
    }
}

/// Reads `count` notes.
pub open spec fn read_notes(bytes: Seq<u8>, count: nat) -> Option<(Seq<NoteView>, Seq<u8>)>
    decreases count,
{
    if count == 0 {
        Some((Seq::empty(), bytes))
    } else {
        match read_note(bytes) {
            Some((note, rest)) => match read_notes(rest, (count - 1) as nat) {
                Some((notes, after)) => Some((seq![note] + notes, after)),
                None => None,
            },
            None => None,
        }
    }
}

/// The collection that the bytes stand for: the counter, the number of notes and
/// the notes, with nothing after them, and the notes in ascending order of their
/// identifiers. A counter that a note has reached is raised above it.
pub open spec fn decoded(bytes: Seq<u8>) -> Option<NotesView> {
    match read_number(bytes) {
        Some((next_id, b1)) => match read_number(b1) {
            Some((count, b2)) => match read_notes(b2, count as nat) {
                Some((notes, rest)) => if rest.len() == 0 {
                    NotesView::restored(notes, next_id)
                } else {
                    None
                },
                None => None,
            },
            None => None,
        },
        None => None,
    }
}

/// Calls `std::str::from_utf8` on the bytes. Where it accepts them, the text it
/// gives has exactly these bytes as its UTF-8 form; it refuses them only where
/// they are no UTF-8.
#[verifier::external_body]
fn text_of_utf8(bytes: &[u8]) -> (text: Option<&str>)
    ensures
        match text {
            Some(t) => t.spec_bytes() == bytes@,
            None => !valid_utf8(bytes@),
        },
{
    match std::str::from_utf8(bytes) {
        Ok(text) => Some(text),
        Err(_) => None,
    }
}

fn put_all(out: &mut Vec<u8>, bytes: &[u8])
    ensures
        final(out)@ == old(out)@ + bytes@,
{
    let mut i: usize = 0;
    assert(out@ =~= old(out)@ + bytes@.take(0));
    while i < bytes.len()
        invariant
            i <= bytes@.len(),
            out@ == old(out)@ + bytes@.take(i as int),
        decreases bytes@.len() - i,
    {
        out.push(bytes[i]);
        assert(out@ =~= old(out)@ + bytes@.take(i + 1));
        i = i + 1;
    }
    assert(bytes@.take(i as int) =~= bytes@);
}

fn put_number(out: &mut Vec<u8>, x: u64)
    ensures
        final(out)@ == old(out)@ + number_bytes(x),
{
    let bytes = u64_to_le_bytes(x);
    put_all(out, bytes.as_slice());
}

fn put_text(out: &mut Vec<u8>, text: &str)
    ensures
        final(out)@ == old(out)@ + text_bytes(text@),
        encode_utf8(text@).len() <= u64::MAX,
{
    let bytes = text.as_bytes();
    put_number(out, bytes.len() as u64);
    put_all(out, bytes);
    assert(out@ =~= old(out)@ + text_bytes(text@));
}

fn put_deadline(out: &mut Vec<u8>, deadline: Option<Date>)
    ensures
        final(out)@ == old(out)@ + deadline_bytes(
            match deadline {
                Some(date) => Some(date@),
                None => None,
            },
        ),
        deadline matches Some(date) ==> i32::MIN <= date@.year <= i32::MAX,
{
    match deadline {
        None => {
            out.push(0);
            assert(out@ =~= old(out)@ + seq![0u8]);
        },
        Some(date) => {
            out.push(1);
            let year: i64 = date.year() as i64;
            put_number(out, (year + 2_147_483_648) as u64);
            out.push(date.month() as u8);
            out.push(date.day() as u8);
            assert(out@ =~= old(out)@ + deadline_bytes(Some(date@)));
        },
    }
}

fn put_note(out: &mut Vec<u8>, note: &Note)
    ensures
        final(out)@ == old(out)@ + note_bytes(note@),
        storable(note@),
{
    let ghost id = number_bytes(note@.id);
    let ghost owner = number_bytes(note@.owner_chat);
    let ghost state = seq![state_byte(note@.state)];
    let ghost deadline = deadline_bytes(note@.deadline);
    let ghost header = text_bytes(note@.header);
    let ghost text = text_bytes(note@.text);
    put_number(out, note.id());
    put_number(out, note.owner_chat());
    let byte: u8 = match note.state() {
        State::ToDo => 0,
        State::Doing => 1,
        State::Done => 2,
    };
    let ghost so_far = out@;
    out.push(byte);
    assert(out@ =~= so_far + state);
    put_deadline(out, note.deadline());
    put_text(out, note.header());
    put_text(out, note.text());
    proof {
        reveal(note_bytes);
        lemma_add_assoc(old(out)@, id, owner);
        lemma_add_assoc(old(out)@, id + owner, state);
        lemma_add_assoc(old(out)@, id + owner + state, deadline);
        lemma_add_assoc(old(out)@, id + owner + state + deadline, header);
        lemma_add_assoc(old(out)@, id + owner + state + deadline + header, text);
    }
}

/// Writes the collection down as bytes.
pub fn encode(notes: &Notes) -> (bytes: Vec<u8>)
    ensures
        bytes@ == encoded(notes@),
        notes@.storable(),
{
    let items = notes.as_slice();
    let ghost all = notes@.notes;
    let mut bytes: Vec<u8> = Vec::new();
    put_number(&mut bytes, notes.next_id());
    put_number(&mut bytes, items.len() as u64);
    let ghost head = bytes@;
    let mut i: usize = 0;
    assert(bytes@ =~= head + notes_bytes(all.take(0)));
    while i < items.len()
        invariant
            i <= items@.len(),
            models(items@) == all,
            bytes@ == head + notes_bytes(all.take(i as int)),
            forall|k: int| 0 <= k < i ==> storable(#[trigger] all[k]),
        decreases items@.len() - i,
    {
        put_note(&mut bytes, &items[i]);
        proof {
            assert(all.take(i + 1).drop_last() =~= all.take(i as int));
            assert(bytes@ =~= head + notes_bytes(all.take(i + 1)));
        }
        i = i + 1;
    }
    assert(all.take(i as int) =~= all);
    assert(bytes@ =~= encoded(notes@));
    bytes
}

fn get_number(bytes: &[u8], at: usize) -> (read: Option<(u64, usize)>)
    requires
        at <= bytes@.len(),
    ensures
        match read {
            Some((x, next)) => at <= next <= bytes@.len() && read_number(bytes@.skip(at as int))
                == Some((x, bytes@.skip(next as int))),
            None => read_number(bytes@.skip(at as int)) is None,
        },
{
    if bytes.len() - at < 8 {
        return None;
    }
    let x = u64_from_le_bytes(slice_subrange(bytes, at, at + 8));
    proof {
        let rest = bytes@.skip(at as int);
        assert(rest.take(8) =~= bytes@.subrange(at as int, at + 8));
        assert(rest.skip(8) =~= bytes@.skip(at + 8));
    }
    Some((x, at + 8))
}

fn get_byte(bytes: &[u8], at: usize) -> (read: Option<(u8, usize)>)
    requires
        at <= bytes@.len(),
    ensures
        match read {
            Some((x, next)) => at <= next <= bytes@.len() && read_byte(bytes@.skip(at as int))
                == Some((x, bytes@.skip(next as int))),
            None => read_byte(bytes@.skip(at as int)) is None,
        },
{
    if bytes.len() - at < 1 {
        return None;
    }
    proof {
        assert(bytes@.skip(at as int).skip(1) =~= bytes@.skip(at + 1));
    }
    Some((bytes[at], at + 1))
}

fn get_text(bytes: &[u8], at: usize) -> (read: Option<(String, usize)>)
    requires
        at <= bytes@.len(),
    ensures
        match read {
            Some((text, next)) => at <= next <= bytes@.len() && read_text(bytes@.skip(at as int))
                == Some((text@, bytes@.skip(next as int))),
            None => read_text(bytes@.skip(at as int)) is None,
        },
{
    let (len, start) = match get_number(bytes, at) {
        Some(read) => read,
        None => {
            return None;
        },
    };
    if len > (bytes.len() - start) as u64 {
        return None;
    }
    let end = start + len as usize;
    proof {
        let rest = bytes@.skip(start as int);
        assert(rest.take(len as int) =~= bytes@.subrange(start as int, end as int));
        assert(rest.skip(len as int) =~= bytes@.skip(end as int));
    }
    match text_of_utf8(slice_subrange(bytes, start, end)) {
        Some(text) => {
            proof {
                encode_utf8_valid_utf8(text@);
                encode_utf8_decode_utf8(text@);
            }
            Some((text.to_owned(), end))
        },
        None => None,
    }
}

fn get_state(bytes: &[u8], at: usize) -> (read: Option<(State, usize)>)
    requires
        at <= bytes@.len(),
    ensures
        match read {
            Some((state, next)) => at <= next <= bytes@.len() && read_state(
                bytes@.skip(at as int),
            ) == Some((state, bytes@.skip(next as int))),
            None => read_state(bytes@.skip(at as int)) is None,
        },
{
    match get_byte(bytes, at) {
        Some((byte, next)) => if byte == 0 {
            Some((State::ToDo, next))
        } else if byte == 1 {
            Some((State::Doing, next))
        } else if byte == 2 {
            Some((State::Done, next))
        } else {
            None
        },
        None => None,
    }
}

fn get_date(bytes: &[u8], at: usize) -> (read: Option<(Date, usize)>)
    requires
        at <= bytes@.len(),
    ensures
        match read {
            Some((date, next)) => date.wf() && at <= next <= bytes@.len() && read_date(
                bytes@.skip(at as int),
            ) == Some((date@, bytes@.skip(next as int))),
            None => read_date(bytes@.skip(at as int)) is None,
        },
{
    let (year, after_year) = match get_number(bytes, at) {
        Some(read) => read,
        None => {
            return None;
        },
    };
    let (month, after_month) = match get_byte(bytes, after_year) {
        Some(read) => read,
        None => {
            return None;
        },
    };
    let (day, next) = match get_byte(bytes, after_month) {
        Some(read) => read,
        None => {
            return None;
        },
    };
    if year >= 2 * YEAR_BASE {
        return None;
    }
    let signed: i64 = year as i64 - 2_147_483_648;
    match Date::from_ymd(signed as i32, month as u32, day as u32) {
        Some(date) => Some((date, next)),
        None => None,
    }
}

fn get_deadline(bytes: &[u8], at: usize) -> (read: Option<(Option<Date>, usize)>)
    requires
        at <= bytes@.len(),
    ensures
        match read {
            Some((deadline, next)) => at <= next <= bytes@.len() && read_deadline(
                bytes@.skip(at as int),
            ) == Some(
                (
                    match deadline {
                        Some(date) => Some(date@),
                        None => None,
                    },
                    bytes@.skip(next as int),
                ),
            ) && (deadline matches Some(date) ==> date.wf()),
            None => read_deadline(bytes@.skip(at as int)) is None,
        },
{
    match get_byte(bytes, at) {
        Some((flag, next)) => if flag == 0 {
            Some((None, next))
        } else if flag == 1 {
            match get_date(bytes, next) {
                Some((date, after)) => Some((Some(date), after)),
                None => None,
            }
        } else {
            None
        },
        None => None,
    }
}

fn get_note(bytes: &[u8], at: usize) -> (read: Option<(Note, usize)>)
    requires
        at <= bytes@.len(),
    ensures
        match read {
            Some((note, next)) => note.wf() && at <= next <= bytes@.len() && read_note(
                bytes@.skip(at as int),
            ) == Some((note@, bytes@.skip(next as int))),
            None => read_note(bytes@.skip(at as int)) is None,
        },
{
    proof {
        reveal(read_note);
    }
    let (id, b1) = match get_number(bytes, at) {
        Some(read) => read,
        None => {
            return None;
        },
    };
    let (owner_chat, b2) = match get_number(bytes, b1) {
        Some(read) => read,
        None => {
            return None;
        },
    };
    let (state, b3) = match get_state(bytes, b2) {
        Some(read) => read,
        None => {
            return None;
        },
    };
    let (deadline, b4) = match get_deadline(bytes, b3) {
        Some(read) => read,
        None => {
            return None;
        },
    };
    let (header, b5) = match get_text(bytes, b4) {
        Some(read) => read,
        None => {
            return None;
        },
    };
    let (text, next) = match get_text(bytes, b5) {
        Some(read) => read,
        None => {
            return None;
        },
    };
    Some((Note::restore(id, owner_chat, header, text, state, deadline), next))
}

/// Reads a collection back from bytes. Bytes that no collection is written
/// down as are a storage failure.
pub fn decode(bytes: &[u8]) -> (notes: Result<Notes, Error>)
    ensures
        match notes {
            Ok(kept) => kept.wf() && decoded(bytes@) == Some(kept@),
            Err(e) => e == Error::StorageFailure && decoded(bytes@) is None,
        },
{
    assert(bytes@.skip(0) =~= bytes@);
    let (next_id, b1) = match get_number(bytes, 0) {
        Some(read) => read,
        None => {
            return Err(Error::StorageFailure);
        },
    };
    let (count, b2) = match get_number(bytes, b1) {
        Some(read) => read,
        None => {
            return Err(Error::StorageFailure);
        },
    };
    let ghost start = bytes@.skip(b2 as int);
    let mut items: Vec<Note> = Vec::new();
    let mut at: usize = b2;
    let mut i: u64 = 0;
    proof {
        assert(models(items@) =~= Seq::<NoteView>::empty());
        match read_notes(start, count as nat) {
            Some((more, rest)) => {
                assert(Seq::<NoteView>::empty() + more =~= more);
            },
            None => {},
        }
    }
    while i < count
        invariant
            i <= count,
            at <= bytes@.len(),
            forall|k: int| 0 <= k < items@.len() ==> (#[trigger] items@[k]).wf(),
            decoded(bytes@) == all_read(read_notes(start, count as nat), next_id),
            read_notes(start, count as nat) == after_read(
                models(items@),
                read_notes(bytes@.skip(at as int), (count - i) as nat),
            ),
        decreases count - i,
    {
        let ghost before = models(items@);
        match get_note(bytes, at) {
            Some((note, next)) => {
                items.push(note);
                proof {
                    assert(models(items@) =~= before.push(note@));
                    lemma_read_more(
                        bytes@.skip(at as int),
                        (count - i) as nat,
                        before,
                        Some((note@, bytes@.skip(next as int))),
                    );
                }
                at = next;
            },
            None => {
                proof {
                    lemma_read_more(bytes@.skip(at as int), (count - i) as nat, before, None);
                }
                return Err(Error::StorageFailure);
            },
        }
        i = i + 1;
    }
    proof {
        lemma_read_more(bytes@.skip(at as int), 0, models(items@), None);
    }
    if at != bytes.len() {
        return Err(Error::StorageFailure);
    }
    match Notes::restore(items, next_id) {
        Some(kept) => Ok(kept),
        None => Err(Error::StorageFailure),
    }
}

/// The collection to start with: the stored one, or an empty one where nothing
/// was stored yet. Stored bytes that no collection is written down as are a
/// storage failure.
pub fn load(stored: Option<&[u8]>) -> (notes: Result<Notes, Error>)
    ensures
        match stored {
            Some(bytes) => match notes {
                Ok(kept) => kept.wf() && decoded(bytes@) == Some(kept@),
                Err(e) => e == Error::StorageFailure && decoded(bytes@) is None,
            },
            None => notes matches Ok(kept) && kept.wf() && kept@ == NotesView::empty(),
        },
{
    match stored {
        Some(bytes) => decode(bytes),
        None => Ok(Notes::new()),
    }
}

/// What reading notes gives, once `notes` were read before.
spec fn after_read(
    notes: Seq<NoteView>,
    read: Option<(Seq<NoteView>, Seq<u8>)>,
) -> Option<(Seq<NoteView>, Seq<u8>)> {
    match read {
        Some((more, rest)) => Some((notes + more, rest)),
        None => None,
    }
}

/// The collection that the notes read and a counter make, where no byte is left.
spec fn all_read(read: Option<(Seq<NoteView>, Seq<u8>)>, next_id: u64) -> Option<
    NotesView,
> {
    match read {
        Some((notes, rest)) => if rest.len() == 0 {
            NotesView::restored(notes, next_id)
        } else {
            None
        },
        None => None,
    }
}

proof fn lemma_read_more(
    bytes: Seq<u8>,
    count: nat,
    notes: Seq<NoteView>,
    first: Option<(NoteView, Seq<u8>)>,
)
    requires
        count > 0 ==> read_note(bytes) == first,
    ensures
        count == 0 ==> after_read(notes, read_notes(bytes, count)) == Some((notes, bytes)),
        count > 0 ==> after_read(notes, read_notes(bytes, count)) == match first {
            Some((note, rest)) => after_read(
                notes.push(note),
                read_notes(rest, (count - 1) as nat),
            ),
            None => None,
        },
{
    if count == 0 {
        assert(notes + Seq::<NoteView>::empty() =~= notes);
    } else {
        match first {
            Some((note, rest)) => {
                match read_notes(rest, (count - 1) as nat) {
                    Some((more, after)) => {
                        assert(notes + (seq![note] + more) =~= notes.push(note) + more);
                    },
                    None => {},
                }
            },
            None => {},
        }
    }
}

/// A number is read back as it was written.
pub proof fn lemma_read_number(x: u64, rest: Seq<u8>)
    ensures
        read_number(number_bytes(x) + rest) == Some((x, rest)),
{
    lemma_auto_spec_u64_to_from_le_bytes();
    let bytes = number_bytes(x) + rest;
    assert(bytes.take(8) =~= number_bytes(x));
    assert(bytes.skip(8) =~= rest);
}

/// A text is read back as it was written.
pub proof fn lemma_read_text(text: Seq<char>, rest: Seq<u8>)
    requires
        encode_utf8(text).len() <= u64::MAX,
    ensures
        read_text(text_bytes(text) + rest) == Some((text, rest)),
{
    let body = encode_utf8(text);
    let len = body.len() as u64;
    assert(text_bytes(text) + rest =~= number_bytes(len) + (body + rest));
    lemma_read_number(len, body + rest);
    assert((body + rest).take(len as int) =~= body);
    assert((body + rest).skip(len as int) =~= rest);
    encode_utf8_valid_utf8(text);
    encode_utf8_decode_utf8(text);
}

/// A deadline is read back as it was written.
pub proof fn lemma_read_deadline(deadline: Option<Ymd>, rest: Seq<u8>)
    requires
        deadline matches Some(date) ==> date.valid() && i32::MIN <= date.year <= i32::MAX,
    ensures
        read_deadline(deadline_bytes(deadline) + rest) == Some((deadline, rest)),
{
    let bytes = deadline_bytes(deadline) + rest;
    match deadline {
        None => {
            assert(bytes.skip(1) =~= rest);
        },
        Some(date) => {
            let year = (date.year + YEAR_BASE) as u64;
            let tail = seq![date.month as u8, date.day as u8] + rest;
            assert(bytes.skip(1) =~= number_bytes(year) + tail);
            lemma_read_number(year, tail);
            assert(tail.skip(1).skip(1) =~= rest);
        },
    }
}

/// A note is read back as it was written.
pub proof fn lemma_read_note(note: NoteView, rest: Seq<u8>)
    requires
        note.wf(),
        storable(note),
    ensures
        read_note(note_bytes(note) + rest) == Some((note, rest)),
{
    reveal(note_bytes);
    reveal(read_note);
    let id = number_bytes(note.id);
    let owner = number_bytes(note.owner_chat);
    let state = seq![state_byte(note.state)];
    let deadline = deadline_bytes(note.deadline);
    let header = text_bytes(note.header);
    let text = text_bytes(note.text);
    let b5 = text + rest;
    let b4 = header + b5;
    let b3 = deadline + b4;
    let b2 = state + b3;
    let b1 = owner + b2;
    assert(note_bytes(note) + rest == id + b1) by {
        lemma_add_assoc(id + owner + state + deadline + header, text, rest);
        lemma_add_assoc(id + owner + state + deadline, header, b5);
        lemma_add_assoc(id + owner + state, deadline, b4);
        lemma_add_assoc(id + owner, state, b3);
        lemma_add_assoc(id, owner, b2);
    }
    lemma_read_number(note.id, b1);
    lemma_read_number(note.owner_chat, b2);
    assert(read_state(b2) == Some((note.state, b3))) by {
        assert(b2.skip(1) =~= b3);
    }
    lemma_read_deadline(note.deadline, b4);
    lemma_read_text(note.header, b5);
    lemma_read_text(note.text, rest);
}

proof fn lemma_add_assoc(a: Seq<u8>, b: Seq<u8>, c: Seq<u8>)
    ensures
        (a + b) + c == a + (b + c),
{
    assert((a + b) + c =~= a + (b + c));
}

/// Notes are read back as they were written.
pub proof fn lemma_read_notes(notes: Seq<NoteView>, rest: Seq<u8>)
    requires
        forall|i: int| 0 <= i < notes.len() ==> (#[trigger] notes[i]).wf() && storable(notes[i]),
    ensures
        read_notes(notes_bytes(notes) + rest, notes.len()) == Some((notes, rest)),
    decreases notes.len(),
{
    if notes.len() == 0 {
        assert(notes_bytes(notes) + rest =~= rest);
        assert(notes =~= Seq::<NoteView>::empty());
    } else {
        let first = notes[0];
        let others = notes.skip(1);
        lemma_notes_bytes_front(notes);
        assert(notes_bytes(notes) + rest =~= note_bytes(first) + (notes_bytes(others) + rest));
        lemma_read_note(first, notes_bytes(others) + rest);
        assert forall|i: int| 0 <= i < others.len() implies (#[trigger] others[i]).wf() && storable(
            others[i],
        ) by {
            assert(others[i] == notes[i + 1]);
        }
        lemma_read_notes(others, rest);
        assert(seq![first] + others =~= notes);
    }
}

proof fn lemma_notes_bytes_front(notes: Seq<NoteView>)
    requires
        notes.len() > 0,
    ensures
        notes_bytes(notes) == note_bytes(notes[0]) + notes_bytes(notes.skip(1)),
    decreases notes.len(),
{
    if notes.len() == 1 {
        assert(notes.drop_last() =~= Seq::<NoteView>::empty());
        assert(notes.skip(1) =~= Seq::<NoteView>::empty());
        assert(notes_bytes(notes) =~= note_bytes(notes[0]) + notes_bytes(notes.skip(1)));
    } else {
        lemma_notes_bytes_front(notes.drop_last());
        assert(notes.drop_last().skip(1) =~= notes.skip(1).drop_last());
        assert(notes.skip(1).last() == notes.last());
        assert(notes_bytes(notes) =~= note_bytes(notes[0]) + notes_bytes(notes.skip(1)));
    }
}

/// What was written down is read back: the same notes and the same counter.
pub proof fn lemma_decoded_encoded(notes: NotesView)
    requires
        notes.wf(),
        notes.storable(),
    ensures
        decoded(encoded(notes)) == Some(notes),
{
    let count = notes.notes.len() as u64;
    let b2 = notes_bytes(notes.notes);
    let b1 = number_bytes(count) + b2;
    assert(encoded(notes) =~= number_bytes(notes.next_id) + b1);
    lemma_read_number(notes.next_id, b1);
    lemma_read_number(count, b2);
    assert(b2 + Seq::<u8>::empty() =~= b2);
    lemma_read_notes(notes.notes, Seq::empty());
}

} // verus!
