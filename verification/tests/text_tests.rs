use notes_bot::gate::{before_create, should_save, SAVE_INTERVAL};
use notes_bot::notes::Notes;
use notes_bot::parse::{one_line_parser, text_parser, ArgumentError};
use notes_bot::state::State;
use notes_bot::text::{decimal_string, push_decimal, push_four_digits, push_two_digits};

#[test]
fn decimal_of_small_numbers() {
    assert_eq!(decimal_string(0), "0");
    assert_eq!(decimal_string(7), "7");
    assert_eq!(decimal_string(10), "10");
    assert_eq!(decimal_string(909), "909");
}

#[test]
fn decimal_of_the_greatest_number() {
    assert_eq!(decimal_string(u64::MAX), "18446744073709551615");
}

#[test]
fn push_decimal_appends() {
    let mut out = String::from("#");
    push_decimal(&mut out, 42);
    push_decimal(&mut out, 0);
    assert_eq!(out, "#420");
}

#[test]
fn push_two_digits_keeps_the_last_two() {
    let mut out = String::new();
    push_two_digits(&mut out, 5);
    push_two_digits(&mut out, 12);
    push_two_digits(&mut out, 345);
    assert_eq!(out, "051245");
}

#[test]
fn push_four_digits_keeps_the_last_four() {
    let mut out = String::new();
    push_four_digits(&mut out, 7);
    push_four_digits(&mut out, 2024);
    push_four_digits(&mut out, 123456);
    assert_eq!(out, "000720243456");
}

#[test]
fn state_tokens_in_any_case() {
    assert_eq!(State::from_token("todo"), Some(State::ToDo));
    assert_eq!(State::from_token("ToDo"), Some(State::ToDo));
    assert_eq!(State::from_token("TODO"), Some(State::ToDo));
    assert_eq!(State::from_token("doing"), Some(State::Doing));
    assert_eq!(State::from_token("Doing"), Some(State::Doing));
    assert_eq!(State::from_token("dOiNg"), Some(State::Doing));
    assert_eq!(State::from_token("done"), Some(State::Done));
    assert_eq!(State::from_token("DONE"), Some(State::Done));
}

#[test]
fn state_tokens_that_name_nothing() {
    assert_eq!(State::from_token(""), None);
    assert_eq!(State::from_token("to do"), None);
    assert_eq!(State::from_token("todo "), None);
    assert_eq!(State::from_token(" done"), None);
    assert_eq!(State::from_token("doin"), None);
    assert_eq!(State::from_token("doings"), None);
    assert_eq!(State::from_token("tod0"), None);
    assert_eq!(State::from_token("finished"), None);
    assert_eq!(State::from_token("d\u{43e}ne"), None);
    assert_eq!(State::from_token("\u{442}odo"), None);
    assert_eq!(State::from_token("don\u{212a}"), None);
}

#[test]
fn state_names() {
    assert_eq!(State::ToDo.name(), "ToDo");
    assert_eq!(State::Doing.name(), "Doing");
    assert_eq!(State::Done.name(), "Done");
}

#[test]
fn state_name_is_a_token_of_the_state() {
    assert_eq!(State::from_token(State::ToDo.name()), Some(State::ToDo));
    assert_eq!(State::from_token(State::Doing.name()), Some(State::Doing));
    assert_eq!(State::from_token(State::Done.name()), Some(State::Done));
}

#[test]
fn save_is_due_at_multiples_of_five() {
    assert_eq!(SAVE_INTERVAL, 5);
    assert!(!should_save(1));
    assert!(!should_save(4));
    assert!(should_save(5));
    assert!(!should_save(6));
    assert!(should_save(10));
    assert!(should_save(0));
    assert!(should_save(u64::MAX));
    assert!(!should_save(u64::MAX - 1));
}

#[test]
fn text_parser_splits_id_and_text() {
    assert_eq!(text_parser(String::from("12 hello world")), Ok((12, String::from("hello world"))));
    assert_eq!(text_parser(String::from("7 x")), Ok((7, String::from("x"))));
    assert_eq!(text_parser(String::from("0 zero")), Ok((0, String::from("zero"))));
    assert_eq!(text_parser(String::from("007 bond")), Ok((7, String::from("bond"))));
}

#[test]
fn text_parser_without_text() {
    assert_eq!(text_parser(String::from("7")), Ok((7, String::new())));
    assert_eq!(text_parser(String::from("7 ")), Ok((7, String::new())));
}

#[test]
fn text_parser_keeps_further_spaces() {
    assert_eq!(text_parser(String::from("12  two")), Ok((12, String::from(" two"))));
    assert_eq!(text_parser(String::from("12 a  b ")), Ok((12, String::from("a  b "))));
}

#[test]
fn text_parser_keeps_other_scripts() {
    assert_eq!(
        text_parser(String::from("3 \u{43f}\u{440}\u{438}\u{432}\u{435}\u{442} \u{1f600}")),
        Ok((3, String::from("\u{43f}\u{440}\u{438}\u{432}\u{435}\u{442} \u{1f600}")))
    );
}

#[test]
fn text_parser_takes_a_plus_sign() {
    assert_eq!(text_parser(String::from("+5 x")), Ok((5, String::from("x"))));
}

#[test]
fn text_parser_refuses_what_is_no_number() {
    assert_eq!(text_parser(String::from("")), Err(ArgumentError::NotANumber));
    assert_eq!(text_parser(String::from(" 5 x")), Err(ArgumentError::NotANumber));
    assert_eq!(text_parser(String::from("abc x")), Err(ArgumentError::NotANumber));
    assert_eq!(text_parser(String::from("-5 x")), Err(ArgumentError::NotANumber));
    assert_eq!(text_parser(String::from("+ x")), Err(ArgumentError::NotANumber));
    assert_eq!(text_parser(String::from("+")), Err(ArgumentError::NotANumber));
    assert_eq!(text_parser(String::from("++5 x")), Err(ArgumentError::NotANumber));
    assert_eq!(text_parser(String::from("5a x")), Err(ArgumentError::NotANumber));
    assert_eq!(text_parser(String::from("5.0 x")), Err(ArgumentError::NotANumber));
    assert_eq!(text_parser(String::from("\u{664}\u{662} x")), Err(ArgumentError::NotANumber));
}

#[test]
fn text_parser_at_the_limit_of_identifiers() {
    assert_eq!(
        text_parser(String::from("18446744073709551615 t")),
        Ok((u64::MAX, String::from("t")))
    );
    assert_eq!(text_parser(String::from("18446744073709551616 t")), Err(ArgumentError::NotANumber));
    assert_eq!(text_parser(String::from("99999999999999999999999 t")), Err(ArgumentError::NotANumber));
    assert_eq!(
        text_parser(String::from("00000000000000000000000000001 t")),
        Ok((1, String::from("t")))
    );
}

#[test]
fn text_parser_agrees_with_the_standard_number_parser() {
    for word in ["0", "1", "+1", "-1", "", "+", "12a", "0012", "18446744073709551615", "18446744073709551616", "1_000"] {
        let input = format!("{} rest", word);
        let expected = word.parse::<u64>().ok();
        assert_eq!(text_parser(input).ok().map(|(id, _)| id), expected);
    }
}

#[test]
fn argument_error_message() {
    assert_eq!(ArgumentError::NotANumber.message(), "First argument should be a number!");
}

#[test]
fn gate_hands_out_the_collection_before_a_fifth_note() {
    let mut notes = Notes::new();
    for header in ["a", "b", "c"] {
        assert!(before_create(&notes).is_none());
        notes.create(String::from(header), 1);
    }
    assert!(before_create(&notes).is_none());
    notes.create(String::from("d"), 1);
    let snapshot = before_create(&notes).expect("the fifth note is next");
    assert_eq!(snapshot.len(), 4);
    assert_eq!(snapshot.next_id(), 5);
    notes.create(String::from("e"), 1);
    assert!(before_create(&notes).is_none());
    assert_eq!(snapshot.len(), 4);
}

#[test]
fn one_line_parser_takes_the_whole_line() {
    assert_eq!(one_line_parser(String::from("buy milk today")), Ok((String::from("buy milk today"),)));
    assert_eq!(one_line_parser(String::new()), Ok((String::new(),)));
    assert_eq!(one_line_parser(String::from(" 12  x ")), Ok((String::from(" 12  x "),)));
}
