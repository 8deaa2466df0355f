use notes_bot::date::Date;
use notes_bot::error::Error;
use notes_bot::note::Note;
use notes_bot::notes::Notes;
use notes_bot::state::State;

fn ymd(year: i32, month: u32, day: u32) -> Date {
    Date::from_ymd(year, month, day).expect("a day of the calendar")
}

fn ids(list: &[&Note]) -> Vec<u64> {
    list.iter().map(|note| note.id()).collect()
}

fn with_deadline(notes: &mut Notes, chat: u64, header: &str, deadline: &str) -> u64 {
    let id = notes.create(String::from(header), chat);
    notes.get_mut(id).unwrap().set_deadline(Some(deadline)).unwrap();
    id
}

#[test]
fn new_collection_is_empty() {
    let notes = Notes::new();
    assert_eq!(notes.len(), 0);
    assert_eq!(notes.next_id(), 1);
    assert!(notes.as_slice().is_empty());
    assert!(notes.get(1).is_none());
}

#[test]
fn create_gives_ascending_ids_from_one() {
    let mut notes = Notes::new();
    assert_eq!(notes.create(String::from("a"), 42), 1);
    assert_eq!(notes.create(String::from("b"), 42), 2);
    assert_eq!(notes.create(String::from("c"), 7), 3);
    assert_eq!(notes.len(), 3);
    assert_eq!(notes.next_id(), 4);
}

#[test]
fn created_note_is_to_do_without_text_and_deadline() {
    let mut notes = Notes::new();
    let id = notes.create(String::from("call"), 9);
    let note = notes.get(id).unwrap();
    assert_eq!(note.id(), id);
    assert_eq!(note.owner_chat(), 9);
    assert_eq!(note.header(), "call");
    assert_eq!(note.text(), "");
    assert_eq!(note.state(), State::ToDo);
    assert_eq!(note.deadline(), None);
}

#[test]
fn ids_are_never_given_twice() {
    let mut notes = Notes::new();
    let mut seen: Vec<u64> = Vec::new();
    for round in 0..20u64 {
        let id = notes.create(format!("n{}", round), round % 3);
        assert!(seen.iter().all(|earlier| *earlier < id));
        seen.push(id);
        if round % 2 == 0 {
            notes.delete(id);
        }
        if round % 5 == 0 {
            notes.delete(1);
        }
    }
    assert_eq!(seen, (1..=20).collect::<Vec<u64>>());
}

#[test]
fn id_is_not_reused_after_the_last_note_was_deleted() {
    let mut notes = Notes::new();
    let first = notes.create(String::from("a"), 1);
    notes.delete(first);
    assert_eq!(notes.len(), 0);
    let second = notes.create(String::from("b"), 1);
    assert_eq!(first, 1);
    assert_eq!(second, 2);
}

#[test]
fn get_finds_each_note() {
    let mut notes = Notes::new();
    for header in ["a", "b", "c", "d", "e", "f", "g"] {
        notes.create(String::from(header), 1);
    }
    notes.delete(4);
    assert_eq!(notes.get(1).unwrap().header(), "a");
    assert_eq!(notes.get(3).unwrap().header(), "c");
    assert!(notes.get(4).is_none());
    assert_eq!(notes.get(5).unwrap().header(), "e");
    assert_eq!(notes.get(7).unwrap().header(), "g");
    assert!(notes.get(0).is_none());
    assert!(notes.get(8).is_none());
    assert!(notes.get(u64::MAX).is_none());
}

#[test]
fn get_mut_changes_are_seen_at_once() {
    let mut notes = Notes::new();
    notes.create(String::from("a"), 1);
    let id = notes.create(String::from("b"), 1);
    notes.create(String::from("c"), 1);
    {
        let note = notes.get_mut(id).unwrap();
        note.set_text(String::from("body"));
        note.set_header(String::from("B"));
        note.set_state("done").unwrap();
    }
    let note = notes.get(id).unwrap();
    assert_eq!(note.text(), "body");
    assert_eq!(note.header(), "B");
    assert_eq!(note.state(), State::Done);
    assert_eq!(notes.get(1).unwrap().header(), "a");
    assert_eq!(notes.get(3).unwrap().header(), "c");
    assert_eq!(notes.len(), 3);
    assert_eq!(notes.next_id(), 4);
}

#[test]
fn get_mut_of_unknown_id_is_absent() {
    let mut notes = Notes::new();
    notes.create(String::from("a"), 1);
    assert!(notes.get_mut(2).is_none());
    assert!(notes.get_mut(0).is_none());
    assert_eq!(notes.len(), 1);
}

#[test]
fn set_state_through_the_collection_rejects_unknown_tokens() {
    let mut notes = Notes::new();
    let id = notes.create(String::from("a"), 1);
    notes.get_mut(id).unwrap().set_state("doing").unwrap();
    assert_eq!(notes.get_mut(id).unwrap().set_state("later"), Err(Error::InvalidState));
    assert_eq!(notes.get(id).unwrap().state(), State::Doing);
}

#[test]
fn set_deadline_through_the_collection_is_read_back() {
    let mut notes = Notes::new();
    let id = notes.create(String::from("a"), 1);
    assert_eq!(notes.get_mut(id).unwrap().set_deadline(Some("2024-06-30")), Ok(()));
    assert_eq!(notes.get(id).unwrap().deadline(), Some(ymd(2024, 6, 30)));
    assert_eq!(
        notes.get_mut(id).unwrap().set_deadline(Some("2024-06-31")),
        Err(Error::InvalidDate)
    );
    assert_eq!(notes.get(id).unwrap().deadline(), Some(ymd(2024, 6, 30)));
}

#[test]
fn delete_then_get_is_absent() {
    let mut notes = Notes::new();
    notes.create(String::from("a"), 1);
    notes.create(String::from("b"), 1);
    notes.delete(1);
    assert!(notes.get(1).is_none());
    assert!(notes.get(2).is_some());
    assert_eq!(notes.len(), 1);
}

#[test]
fn delete_of_unknown_id_changes_nothing() {
    let mut notes = Notes::new();
    notes.create(String::from("a"), 1);
    notes.delete(99);
    assert!(notes.get(99).is_none());
    notes.delete(1);
    notes.delete(1);
    assert!(notes.get(1).is_none());
    assert_eq!(notes.len(), 0);
    assert_eq!(notes.next_id(), 2);
}

#[test]
fn delete_on_an_empty_collection() {
    let mut notes = Notes::new();
    notes.delete(3);
    assert_eq!(notes.len(), 0);
    assert_eq!(notes.next_id(), 1);
    assert!(notes.get(3).is_none());
}

#[test]
fn list_by_chat_leaves_out_done_notes() {
    let mut notes = Notes::new();
    notes.create(String::from("a"), 42);
    notes.create(String::from("b"), 42);
    notes.create(String::from("c"), 42);
    notes.get_mut(1).unwrap().set_state("doing").unwrap();
    notes.get_mut(2).unwrap().set_state("done").unwrap();
    assert_eq!(ids(&notes.list_by_chat(42)), vec![1, 3]);
    assert_eq!(ids(&notes.list_by_chat_all(42)), vec![1, 2, 3]);
}

#[test]
fn lists_hold_only_the_notes_of_the_chat() {
    let mut notes = Notes::new();
    notes.create(String::from("a"), 1);
    notes.create(String::from("b"), 2);
    notes.create(String::from("c"), 1);
    notes.create(String::from("d"), 3);
    notes.get_mut(4).unwrap().set_state("done").unwrap();
    assert_eq!(ids(&notes.list_by_chat(1)), vec![1, 3]);
    assert_eq!(ids(&notes.list_by_chat(2)), vec![2]);
    assert_eq!(ids(&notes.list_by_chat(3)), Vec::<u64>::new());
    assert_eq!(ids(&notes.list_by_chat_all(3)), vec![4]);
    assert_eq!(ids(&notes.list_by_chat(4)), Vec::<u64>::new());
    assert_eq!(ids(&notes.list_by_chat_all(4)), Vec::<u64>::new());
}

#[test]
fn lists_of_an_empty_collection_are_empty() {
    let notes = Notes::new();
    assert!(notes.list_by_chat(1).is_empty());
    assert!(notes.list_by_chat_all(1).is_empty());
    assert!(notes.agenda(1, &ymd(2024, 1, 1)).is_empty());
}

#[test]
fn agenda_holds_the_week_from_today() {
    let mut notes = Notes::new();
    let yesterday = with_deadline(&mut notes, 1, "yesterday", "2024-05-09");
    let today = with_deadline(&mut notes, 1, "today", "2024-05-10");
    let seventh = with_deadline(&mut notes, 1, "seventh", "2024-05-17");
    let eighth = with_deadline(&mut notes, 1, "eighth", "2024-05-18");
    let none = notes.create(String::from("no deadline"), 1);
    let other = with_deadline(&mut notes, 2, "other chat", "2024-05-11");
    let list = ids(&notes.agenda(1, &ymd(2024, 5, 10)));
    assert_eq!(list, vec![today, seventh]);
    assert!(!list.contains(&yesterday));
    assert!(!list.contains(&eighth));
    assert!(!list.contains(&none));
    assert!(!list.contains(&other));
    assert_eq!(ids(&notes.agenda(2, &ymd(2024, 5, 10))), vec![other]);
    assert_eq!(ids(&notes.agenda(3, &ymd(2024, 5, 10))), Vec::<u64>::new());
}

#[test]
fn agenda_is_ordered_by_deadline_then_id() {
    let mut notes = Notes::new();
    let a = with_deadline(&mut notes, 1, "a", "2024-05-14");
    let b = with_deadline(&mut notes, 1, "b", "2024-05-11");
    let c = with_deadline(&mut notes, 1, "c", "2024-05-14");
    let d = with_deadline(&mut notes, 1, "d", "2024-05-10");
    let e = with_deadline(&mut notes, 1, "e", "2024-05-11");
    let f = with_deadline(&mut notes, 1, "f", "2024-05-17");
    assert_eq!(ids(&notes.agenda(1, &ymd(2024, 5, 10))), vec![d, b, e, a, c, f]);
}

#[test]
fn agenda_includes_done_notes_that_are_due() {
    let mut notes = Notes::new();
    let id = with_deadline(&mut notes, 1, "a", "2024-05-12");
    notes.get_mut(id).unwrap().set_state("done").unwrap();
    assert_eq!(ids(&notes.agenda(1, &ymd(2024, 5, 10))), vec![id]);
}

#[test]
fn agenda_crosses_month_and_year() {
    let mut notes = Notes::new();
    let a = with_deadline(&mut notes, 1, "a", "2025-01-03");
    let b = with_deadline(&mut notes, 1, "b", "2024-12-31");
    let c = with_deadline(&mut notes, 1, "c", "2025-01-05");
    assert_eq!(ids(&notes.agenda(1, &ymd(2024, 12, 28))), vec![b, a]);
    assert_eq!(ids(&notes.agenda(1, &ymd(2024, 12, 29))), vec![b, a, c]);
}

#[test]
fn clone_is_independent() {
    let mut notes = Notes::new();
    notes.create(String::from("a"), 1);
    notes.create(String::from("b"), 1);
    let copy = notes.clone();
    notes.delete(1);
    notes.create(String::from("c"), 1);
    assert_eq!(copy.len(), 2);
    assert_eq!(copy.next_id(), 3);
    assert_eq!(copy.get(1).unwrap().header(), "a");
    assert!(copy.get(3).is_none());
}

#[test]
fn as_slice_is_in_ascending_order() {
    let mut notes = Notes::new();
    for header in ["a", "b", "c", "d"] {
        notes.create(String::from(header), 1);
    }
    notes.delete(2);
    let stored: Vec<u64> = notes.as_slice().iter().map(|note| note.id()).collect();
    assert_eq!(stored, vec![1, 3, 4]);
}

#[test]
fn restore_gives_back_notes_and_counter() {
    let mut notes = Notes::new();
    notes.create(String::from("a"), 1);
    notes.create(String::from("b"), 2);
    notes.create(String::from("c"), 1);
    notes.delete(3);
    let items: Vec<Note> = notes.as_slice().to_vec();
    let back = Notes::restore(items, notes.next_id()).unwrap();
    assert_eq!(back.len(), 2);
    assert_eq!(back.next_id(), 4);
    assert_eq!(back.get(1).unwrap().header(), "a");
    assert_eq!(back.get(2).unwrap().owner_chat(), 2);
}

#[test]
fn restore_raises_a_counter_that_is_too_small() {
    let items = vec![
        Note::new(4, String::from("a"), 1),
        Note::new(9, String::from("b"), 1),
    ];
    let mut back = Notes::restore(items, 3).unwrap();
    assert_eq!(back.next_id(), 10);
    assert_eq!(back.create(String::from("c"), 1), 10);
    let equal = Notes::restore(vec![Note::new(9, String::from("b"), 1)], 9).unwrap();
    assert_eq!(equal.next_id(), 10);
    let above = Notes::restore(vec![Note::new(9, String::from("b"), 1)], 50).unwrap();
    assert_eq!(above.next_id(), 50);
    let empty = Notes::restore(Vec::new(), 0).unwrap();
    assert_eq!(empty.next_id(), 0);
}

#[test]
fn restore_refuses_ids_that_do_not_ascend() {
    let twice = vec![
        Note::new(4, String::from("a"), 1),
        Note::new(4, String::from("b"), 1),
    ];
    assert!(Notes::restore(twice, 10).is_none());
    let back = vec![
        Note::new(5, String::from("a"), 1),
        Note::new(4, String::from("b"), 1),
    ];
    assert!(Notes::restore(back, 10).is_none());
}

#[test]
fn restore_refuses_an_id_that_leaves_no_counter() {
    let items = vec![Note::new(u64::MAX, String::from("a"), 1)];
    assert!(Notes::restore(items, 1).is_none());
    let near = vec![Note::new(u64::MAX - 1, String::from("a"), 1)];
    assert_eq!(Notes::restore(near, 1).unwrap().next_id(), u64::MAX);
}
