//! The textual notation of submoves and moves, as functions on sequences of
//! characters.
//!
//! A submove is written `<origin>/<destination>`. Origin and destination are
//! point numbers from 1 to 24, counted in the mover's direction of play; the
//! origin may be `bar` instead, for a chequer that enters, and the
//! destination `o`, for a chequer that is borne off. A move is written as
//! its submoves, separated by white space.

use vstd::prelude::*;

use crate::constants::POINTS;
use crate::moves::{ParseError, Position, Submove};

verus! {

/// The character that separates origin and destination.
pub const SEPARATOR: char = '/';

/// The origin of a chequer that enters from the bar.
pub open spec fn bar_token() -> Seq<char> {
    seq!['b', 'a', 'r']
}

/// The destination of a chequer that is borne off.
pub open spec fn off_token() -> Seq<char> {
    seq!['o']
}

/// White space as Unicode defines it, and as `char::is_whitespace` tells it.
pub open spec fn is_space(c: char) -> bool {
    ||| '\u{9}' <= c <= '\u{d}'
    ||| c == ' '
    ||| c == '\u{85}'
    ||| c == '\u{a0}'
    ||| c == '\u{1680}'
    ||| '\u{2000}' <= c <= '\u{200a}'
    ||| c == '\u{2028}'
    ||| c == '\u{2029}'
    ||| c == '\u{202f}'
    ||| c == '\u{205f}'
    ||| c == '\u{3000}'
}

/// One of the ten decimal digits.
pub open spec fn is_digit(c: char) -> bool {
    '0' <= c <= '9'
}

/// The number that a decimal digit stands for.
pub open spec fn digit_value(c: char) -> nat {
    (c as int - '0' as int) as nat
}

/// The decimal digit that stands for `d`, where `d < 10`.
pub open spec fn digit_char(d: nat) -> char {
    ('0' as int + d) as char
}

/// Index of the first occurrence of `c` in `text`, or the length of `text`
/// where `c` does not occur.
pub open spec fn find(text: Seq<char>, c: char) -> nat
    decreases text.len(),
{
    if text.len() == 0 || text[0] == c {
        0
    } else {
        1 + find(text.drop_first(), c)
    }
}

/// The text is made of decimal digits, and of one at least.
pub open spec fn is_digits(text: Seq<char>) -> bool {
    text.len() > 0 && forall|i: int| 0 <= i < text.len() ==> is_digit(#[trigger] text[i])
}

/// The number that a text of decimal digits stands for.
pub open spec fn decimal(digits: Seq<char>) -> nat
    decreases digits.len(),
{
    if digits.len() == 0 {
        0
    } else {
        10 * decimal(digits.drop_last()) + digit_value(digits.last())
    }
}

/// A number without the plus sign that may stand before its digits.
pub open spec fn unsigned(number: Seq<char>) -> Seq<char> {
    if number.len() > 0 && number[0] == '+' {
        number.drop_first()
    } else {
        number
    }
}

/// The position that a point number names. The number is written in decimal
/// digits, as many as one likes, with or without a plus sign before them; a
/// token of any other form is malformed. Its value must lie between 1 and
/// 24, and the position is one less.
pub open spec fn point_of(token: Seq<char>) -> Result<Position, ParseError> {
    let digits = unsigned(token);
    if !is_digits(digits) {
        Err(ParseError::Malformed)
    } else if decimal(digits) < 1 || decimal(digits) > POINTS {
        Err(ParseError::OutOfRange)
    } else {
        Ok((decimal(digits) - 1) as usize)
    }
}

/// The submove that a text denotes. The text must hold the separator once.
/// `bar` before it gives a chequer that enters, `o` behind it a chequer that
/// is borne off, and the first of the two decides where both occur. Every
/// other token must be a point number; of two tokens that are not, the
/// first gives the error.
pub open spec fn submove_of(text: Seq<char>) -> Result<Submove, ParseError> {
    let at = find(text, SEPARATOR) as int;
    let origin = text.take(at);
    let destination = text.skip(at + 1);
    if at == text.len() {
        Err(ParseError::MissingSeparator)
    } else if find(destination, SEPARATOR) < destination.len() {
        Err(ParseError::ExtraSeparator)
    } else if origin == bar_token() {
        match point_of(destination) {
            Ok(to) => Ok(Submove::Enter { to }),
            Err(e) => Err(e),
        }
    } else if destination == off_token() {
        match point_of(origin) {
            Ok(from) => Ok(Submove::BearOff { from }),
            Err(e) => Err(e),
        }
    } else {
        match point_of(origin) {
            Ok(from) => match point_of(destination) {
                Ok(to) => Ok(Submove::Move { from, to }),
                Err(e) => Err(e),
            },
            Err(e) => Err(e),
        }
    }
}

/// Length of the longest beginning of `text` that holds no white space.
pub open spec fn word_len(text: Seq<char>) -> nat
    decreases text.len(),
{
    if text.len() == 0 || is_space(text[0]) {
        0
    } else {
        1 + word_len(text.drop_first())
    }
}

/// A word is no longer than the text that it begins, and not empty where
/// the text begins with anything but white space.
pub proof fn lemma_word_len_bounds(text: Seq<char>)
    ensures
        word_len(text) <= text.len(),
        text.len() > 0 && !is_space(text[0]) ==> word_len(text) >= 1,
    decreases text.len(),
{
    if text.len() > 0 && !is_space(text[0]) {
        lemma_word_len_bounds(text.drop_first());
    }
}

/// The words of a text: its longest stretches without white space, from
/// left to right.
pub open spec fn words(text: Seq<char>) -> Seq<Seq<char>>
    decreases text.len(),
{
    if text.len() == 0 {
        Seq::empty()
    } else if is_space(text[0]) {
        words(text.drop_first())
    } else {
        proof {
            lemma_word_len_bounds(text);
        }
        seq![text.take(word_len(text) as int)] + words(text.skip(word_len(text) as int))
    }
}

/// The submoves that a sequence of words denotes, or the error of the first
/// word that denotes none.
pub open spec fn submoves_of(words: Seq<Seq<char>>) -> Result<Seq<Submove>, ParseError>
    decreases words.len(),
{
    if words.len() == 0 {
        Ok(Seq::empty())
    } else {
        match submoves_of(words.drop_last()) {
            Ok(submoves) => match submove_of(words.last()) {
                Ok(s) => Ok(submoves.push(s)),
                Err(e) => Err(e),
            },
            Err(e) => Err(e),
        }
    }
}

/// Where some words denote no submoves, no words after them change the
/// error.
pub proof fn lemma_first_error_stays(first: Seq<Seq<char>>, rest: Seq<Seq<char>>)
    requires
        submoves_of(first) is Err,
    ensures
        submoves_of(first + rest) == submoves_of(first),
    decreases rest.len(),
{
    if rest.len() == 0 {
        assert(first + rest =~= first);
    } else {
        assert((first + rest).drop_last() =~= first + rest.drop_last());
        lemma_first_error_stays(first, rest.drop_last());
    }
}

/// The submoves of the move that a text denotes: those of its words, of
/// which there must be one at least.
pub open spec fn move_of(text: Seq<char>) -> Result<Seq<Submove>, ParseError> {
    if words(text).len() == 0 {
        Err(ParseError::Empty)
    } else {
        submoves_of(words(text))
    }
}

/// How a position is written: as the number of its point, without a sign and
/// without zeros before it.
pub open spec fn point_text(position: Position) -> Seq<char> {
    let number = (position + 1) as nat;
    if number < 10 {
        seq![digit_char(number)]
    } else {
        seq![digit_char(number / 10), digit_char(number % 10)]
    }
}

/// How a submove is written.
pub open spec fn submove_text(s: Submove) -> Seq<char> {
    match s {
        Submove::Move { from, to } => point_text(from) + seq![SEPARATOR] + point_text(to),
        Submove::Enter { to } => bar_token() + seq![SEPARATOR] + point_text(to),
        Submove::BearOff { from } => point_text(from) + seq![SEPARATOR] + off_token(),
    }
}

/// How a move is written: its submoves, with one blank between each two.
pub open spec fn move_text(submoves: Seq<Submove>) -> Seq<char>
    decreases submoves.len(),
{
    if submoves.len() == 0 {
        Seq::empty()
    } else if submoves.len() == 1 {
        submove_text(submoves[0])
    } else {
        submove_text(submoves[0]) + seq![' '] + move_text(submoves.drop_first())
    }
}

} // verus!
