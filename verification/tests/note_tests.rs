use notes_bot::date::Date;
use notes_bot::error::Error;
use notes_bot::note::Note;
use notes_bot::state::State;

fn sample() -> Note {
    Note::new(3, String::from("buy milk"), 42)
}

#[test]
fn new_note_defaults() {
    let note = sample();
    assert_eq!(note.id(), 3);
    assert_eq!(note.owner_chat(), 42);
    assert_eq!(note.header(), "buy milk");
    assert_eq!(note.text(), "");
    assert_eq!(note.state(), State::ToDo);
    assert_eq!(note.deadline(), None);
}

#[test]
fn set_state_accepts_the_three_tokens() {
    let mut note = sample();
    assert_eq!(note.set_state("doing"), Ok(()));
    assert_eq!(note.state(), State::Doing);
    assert_eq!(note.set_state("DONE"), Ok(()));
    assert_eq!(note.state(), State::Done);
    assert_eq!(note.set_state("ToDo"), Ok(()));
    assert_eq!(note.state(), State::ToDo);
}

#[test]
fn set_state_with_unknown_token_changes_nothing() {
    let mut note = sample();
    note.set_state("doing").unwrap();
    assert_eq!(note.set_state("finished"), Err(Error::InvalidState));
    assert_eq!(note.state(), State::Doing);
    assert_eq!(note.set_state(""), Err(Error::InvalidState));
    assert_eq!(note.state(), State::Doing);
    assert_eq!(note.header(), "buy milk");
    assert_eq!(note.id(), 3);
}

#[test]
fn set_deadline_with_a_date() {
    let mut note = sample();
    assert_eq!(note.set_deadline(Some("2024-03-15")), Ok(()));
    assert_eq!(note.deadline(), Date::from_ymd(2024, 3, 15));
    assert_eq!(note.deadline().unwrap().to_text(), "2024-03-15");
}

#[test]
fn set_deadline_in_the_past_is_accepted() {
    let mut note = sample();
    assert_eq!(note.set_deadline(Some("1970-01-01")), Ok(()));
    assert_eq!(note.deadline(), Date::from_ymd(1970, 1, 1));
}

#[test]
fn set_deadline_with_bad_text_changes_nothing() {
    let mut note = sample();
    note.set_deadline(Some("2024-03-15")).unwrap();
    assert_eq!(note.set_deadline(Some("tomorrow")), Err(Error::InvalidDate));
    assert_eq!(note.deadline(), Date::from_ymd(2024, 3, 15));
    assert_eq!(note.set_deadline(Some("2024-02-30")), Err(Error::InvalidDate));
    assert_eq!(note.deadline(), Date::from_ymd(2024, 3, 15));
    assert_eq!(note.set_deadline(Some("")), Err(Error::InvalidDate));
    assert_eq!(note.deadline(), Date::from_ymd(2024, 3, 15));
}

#[test]
fn set_deadline_without_text_clears() {
    let mut note = sample();
    note.set_deadline(Some("2024-03-15")).unwrap();
    assert_eq!(note.set_deadline(None), Ok(()));
    assert_eq!(note.deadline(), None);
}

#[test]
fn set_parsed_deadline_takes_the_date_or_reports() {
    let mut note = sample();
    assert_eq!(note.set_parsed_deadline(Date::from_ymd(2025, 1, 2)), Ok(()));
    assert_eq!(note.deadline(), Date::from_ymd(2025, 1, 2));
    assert_eq!(note.set_parsed_deadline(None), Err(Error::InvalidDate));
    assert_eq!(note.deadline(), Date::from_ymd(2025, 1, 2));
}

#[test]
fn set_text_and_header_replace() {
    let mut note = sample();
    note.set_text(String::from("two litres"));
    note.set_header(String::from("buy oat milk"));
    assert_eq!(note.text(), "two litres");
    assert_eq!(note.header(), "buy oat milk");
    note.set_text(String::new());
    assert_eq!(note.text(), "");
    assert_eq!(note.id(), 3);
    assert_eq!(note.owner_chat(), 42);
    assert_eq!(note.state(), State::ToDo);
}

#[test]
fn display_text_of_a_new_note() {
    assert_eq!(sample().to_display_text(), "#3 buy milk\nState: ToDo\nDeadline: none\n");
}

#[test]
fn display_text_with_every_field() {
    let mut note = Note::new(120, String::from("essay"), 1);
    note.set_state("doing").unwrap();
    note.set_deadline(Some("2024-12-01")).unwrap();
    note.set_text(String::from("first draft\nthen read again"));
    assert_eq!(
        note.to_display_text(),
        "#120 essay\nState: Doing\nDeadline: 2024-12-01\nfirst draft\nthen read again"
    );
}

#[test]
fn display_text_of_a_done_note() {
    let mut note = Note::new(u64::MAX, String::new(), 0);
    note.set_state("done").unwrap();
    assert_eq!(
        note.to_display_text(),
        "#18446744073709551615 \nState: Done\nDeadline: none\n"
    );
}

#[test]
fn restore_keeps_every_field() {
    let note = Note::restore(
        9,
        77,
        String::from("h"),
        String::from("t"),
        State::Done,
        Date::from_ymd(2020, 2, 29),
    );
    assert_eq!(note.id(), 9);
    assert_eq!(note.owner_chat(), 77);
    assert_eq!(note.header(), "h");
    assert_eq!(note.text(), "t");
    assert_eq!(note.state(), State::Done);
    assert_eq!(note.deadline(), Date::from_ymd(2020, 2, 29));
}

#[test]
fn clone_copies_every_field() {
    let mut note = sample();
    note.set_deadline(Some("2024-03-15")).unwrap();
    note.set_text(String::from("body"));
    let copy = note.clone();
    note.set_text(String::from("changed"));
    assert_eq!(copy.id(), 3);
    assert_eq!(copy.owner_chat(), 42);
    assert_eq!(copy.header(), "buy milk");
    assert_eq!(copy.text(), "body");
    assert_eq!(copy.deadline(), Date::from_ymd(2024, 3, 15));
}
