//! Telling the arguments of a command apart.

use crate::text::{decimal, digit_char, digit_value, digits_value, is_digit};
use vstd::prelude::*;
use vstd::string::StrSliceExecFns;

verus! {

/// Why the arguments of a command could not be told apart.
#[derive(Clone, Copy, Debug, PartialEq, Eq, Structural)]
pub enum ArgumentError {
    /// The first word is not a number that can be an identifier.
    NotANumber,
}

/// What a user is told about an argument error.
pub const NOT_A_NUMBER: &'static str = "First argument should be a number!";

impl ArgumentError {
    /// What to tell the user.
    pub fn message(&self) -> (text: &'static str)
        ensures
            text@ == NOT_A_NUMBER@,
    {
        NOT_A_NUMBER
    }
}

/// The word without the `+` that may stand in front of it.
pub open spec fn unsigned(word: Seq<char>) -> Seq<char> {
    if word.len() > 0 && word[0] == '+' {
        word.skip(1)
    } else {
        word
    }
}

/// The identifier that a word denotes: one or more decimal digits, with or
/// without a `+` in front, whose value fits into 64 bits.
pub open spec fn number_of(word: Seq<char>) -> Option<u64> {
    let digits = unsigned(word);
    if digits.len() > 0 && (forall|i: int| 0 <= i < digits.len() ==> is_digit(#[trigger] digits[i]))
        && digits_value(digits) <= u64::MAX {
        Some(digits_value(digits) as u64)
    } else {
        None
    }
}

/// The number of characters before the first space, or the length of the text
/// where it has no space.
pub open spec fn word_len(text: Seq<char>) -> int
    decreases text.len(),
{
    if text.len() == 0 || text[0] == ' ' {
        0
    } else {
        1 + word_len(text.skip(1))
    }
}

/// What follows the first space of the text; nothing where it has no space.
pub open spec fn after_first_word(text: Seq<char>) -> Seq<char> {
    if word_len(text) < text.len() {
        text.skip(word_len(text) + 1)
    } else {
        Seq::empty()
    }
}

/// An identifier and a text, as the arguments of a command give them: the first
/// word is the identifier, everything after the space that ends it is the text.
pub open spec fn id_and_text(input: Seq<char>) -> Option<(u64, Seq<char>)> {
    match number_of(input.take(word_len(input))) {
        Some(id) => Some((id, after_first_word(input))),
        None => None,
    }
}

/// The first word ends at the first space.
pub proof fn lemma_word_len(text: Seq<char>, n: int)
    requires
        0 <= n <= text.len(),
        forall|i: int| 0 <= i < n ==> text[i] != ' ',
    ensures
        n <= word_len(text) <= text.len(),
        n == text.len() || text[n] == ' ' ==> word_len(text) == n,
    decreases n,
{
    if n > 0 {
        let rest = text.skip(1);
        assert forall|i: int| 0 <= i < n - 1 implies rest[i] != ' ' by {
            assert(rest[i] == text[i + 1]);
        }
        lemma_word_len(rest, n - 1);
    } else {
        lemma_word_len_bound(text);
    }
}

proof fn lemma_word_len_bound(text: Seq<char>)
    ensures
        0 <= word_len(text) <= text.len(),
    decreases text.len(),
{
    if text.len() > 0 && text[0] != ' ' {
        lemma_word_len_bound(text.skip(1));
    }
}

/// More digits never make a smaller number.
pub proof fn lemma_digits_value_grows(digits: Seq<char>, n: int)
    requires
        0 <= n <= digits.len(),
    ensures
        digits_value(digits.take(n)) <= digits_value(digits),
    decreases digits.len(),
{
    if n == digits.len() {
        assert(digits.take(n) =~= digits);
    } else {
        lemma_digits_value_grows(digits.drop_last(), n);
        assert(digits.drop_last().take(n) =~= digits.take(n));
    }
}

/// A number written in decimal consists of digits that spell it.
pub proof fn lemma_decimal_digits(n: nat)
    ensures
        decimal(n).len() > 0,
        forall|i: int| 0 <= i < decimal(n).len() ==> is_digit(#[trigger] decimal(n)[i]),
        digits_value(decimal(n)) == n,
    decreases n,
{
    let last = digit_char((n % 10) as int);
    assert(is_digit(last) && digit_value(last) == n % 10);
    if n < 10 {
        assert(decimal(n).drop_last() =~= Seq::<char>::empty());
        assert(digits_value(decimal(n).drop_last()) == 0);
    } else {
        lemma_decimal_digits(n / 10);
        assert(decimal(n).drop_last() =~= decimal(n / 10));
    }
}

/// An identifier as it is shown, a space and a text are read back as that
/// identifier and that text.
pub proof fn lemma_shown_id_is_read(id: u64, text: Seq<char>)
    ensures
        number_of(decimal(id as nat)) == Some(id),
        id_and_text(decimal(id as nat) + seq![' '] + text) == Some((id, text)),
{
    let word = decimal(id as nat);
    let input = word + seq![' '] + text;
    lemma_decimal_digits(id as nat);
    assert(is_digit(word[0]));
    assert forall|i: int| 0 <= i < word.len() implies input[i] != ' ' by {
        assert(is_digit(word[i]));
    }
    lemma_word_len(input, word.len() as int);
    assert(input.take(word.len() as int) =~= word);
    assert(input.skip(word.len() as int + 1) =~= text);
}

/// Splits the arguments of a command into the identifier of a note and a text.
pub fn text_parser(input: String) -> (parsed: Result<(u64, String), ArgumentError>)
    ensures
        match id_and_text(input@) {
            Some((id, text)) => parsed matches Ok((i, t)) && i == id && t@ == text,
            None => parsed == Err::<(u64, String), ArgumentError>(ArgumentError::NotANumber),
        },
{
    let line = input.as_str();
    let ghost all = line@;
    let len = line.unicode_len();
    let start: usize = if len > 0 && line.get_char(0) == '+' {
        1
    } else {
        0
    };
    let mut i: usize = start;
    let mut value: u64 = 0;
    assert(all.subrange(start as int, i as int) =~= Seq::<char>::empty());
    while i < len
        invariant
            all == line@,
            all == input@,
            len == all.len(),
            start <= i <= len,
            start == 1 ==> all[0] == '+',
            start == 0 || start == 1,
            start == 0 && len > 0 ==> all[0] != '+',
            forall|k: int| 0 <= k < i ==> all[k] != ' ',
            forall|k: int| start <= k < i ==> is_digit(#[trigger] all[k]),
            value == digits_value(all.subrange(start as int, i as int)),
        ensures
            start <= i <= len,
            forall|k: int| 0 <= k < i ==> all[k] != ' ',
            forall|k: int| start <= k < i ==> is_digit(#[trigger] all[k]),
            value == digits_value(all.subrange(start as int, i as int)),
            i == len || all[i as int] == ' ',
        decreases len - i,
    {
        let c = line.get_char(i);
        if c == ' ' {
            break;
        }
        proof {
            lemma_word_len(all, i + 1);
        }
        let ghost word = all.take(word_len(all));
        let ghost digits = unsigned(word);
        assert(digits =~= all.subrange(start as int, word_len(all)));
        if c < '0' || c > '9' {
            assert(!is_digit(digits[i - start]));
            return Err(ArgumentError::NotANumber);
        }
        let digit: u64 = (c as u32 - 48) as u64;
        proof {
            let seen = all.subrange(start as int, i + 1);
            assert(seen.drop_last() =~= all.subrange(start as int, i as int));
            assert(digits_value(seen) == value * 10 + digit);
            assert(digits.take(i + 1 - start) =~= seen);
            lemma_digits_value_grows(digits, i + 1 - start);
        }
        if value > (u64::MAX - digit) / 10 {
            return Err(ArgumentError::NotANumber);
        }
        value = value * 10 + digit;
        i = i + 1;
    }
    proof {
        lemma_word_len(all, i as int);
        assert(unsigned(all.take(word_len(all))) =~= all.subrange(start as int, i as int));
    }
    if i == start {
        return Err(ArgumentError::NotANumber);
    }
    let text = if i < len {
        line.substring_char(i + 1, len).to_owned()
    } else {
        String::new()
    };
    assert(text@ =~= after_first_word(all));
    Ok((value, text))
}

/// Takes the whole line as the one argument of a command.
pub fn one_line_parser(input: String) -> (parsed: Result<(String,), ArgumentError>)
    ensures
        parsed == Ok::<(String,), ArgumentError>((input,)),
{
    Ok((input,))
}

} // verus!
