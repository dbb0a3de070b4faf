//! Submoves and moves, and the reading and writing of their notation.

use std::str::FromStr;
use vstd::prelude::*;

use crate::constants::{BAR, BEAR_OFF, POINTS};
use crate::notation::{
    bar_token, decimal, digit_char, find, is_digit, is_digits, is_space, lemma_first_error_stays,
    lemma_word_len_bounds, move_of, move_text, off_token, point_of, point_text, submove_of,
    submove_text, submoves_of, unsigned, word_len, words, SEPARATOR,
};
use crate::round_trip::lemma_read_move_wf;

verus! {

/// Index of a point as a move names it: point number minus one, counted in
/// the mover's direction of play.
pub type Position = usize;

/// One atomic relocation of a chequer, in the mover's own numbering.
#[derive(Debug, Clone, Copy, PartialEq, Eq, Structural)]
pub enum Submove {
    /// A chequer goes from point `from` to point `to`.
    Move { from: Position, to: Position },
    /// A chequer comes back from the bar onto point `to`.
    Enter { to: Position },
    /// A chequer leaves point `from` for the bear-off tray.
    BearOff { from: Position },
}

/// Why a text denotes no submove, or no move.
#[derive(Debug, Clone, Copy, PartialEq, Eq, Structural)]
pub enum ParseError {
    /// A submove holds no `/`.
    MissingSeparator,
    /// A submove holds more than one `/`.
    ExtraSeparator,
    /// A token is neither a number nor a word that may stand in its place.
    Malformed,
    /// A number is not that of a point: it is less than 1 or more than 24.
    OutOfRange,
    /// A move holds no submove.
    Empty,
}

/// An ordered batch of submoves: what one side plays on one roll.
#[derive(Debug, Clone, PartialEq)]
pub struct Move {
    pub submoves: Vec<Submove>,
}

impl View for Move {
    type V = Seq<Submove>;

    open spec fn view(&self) -> Seq<Submove> {
        self.submoves@
    }
}

/// Every submove of the sequence names points only.
pub open spec fn all_wf(submoves: Seq<Submove>) -> bool {
    forall|i: int| 0 <= i < submoves.len() ==> (#[trigger] submoves[i]).wf()
}

/// Returns the characters of a string.
fn chars_of(s: &str) -> (chars: Vec<char>)
    ensures
        chars@ == s@,
{
    let mut chars: Vec<char> = Vec::new();
    for c in it: s.chars()
        invariant
            it.seq() == s@,
            chars@ == s@.take(it.index()),
    {
        chars.push(c);
        proof {
            assert(chars@ =~= s@.take(it.index() + 1));
        }
    }
    proof {
        assert(chars@ =~= s@);
    }
    chars
}

/// Tells whether a character is white space.
fn is_space_char(c: char) -> (b: bool)
    ensures
        b == is_space(c),
{
    ('\u{9}' <= c && c <= '\u{d}') || c == ' ' || c == '\u{85}' || c == '\u{a0}' || c
        == '\u{1680}' || ('\u{2000}' <= c && c <= '\u{200a}') || c == '\u{2028}' || c
        == '\u{2029}' || c == '\u{202f}' || c == '\u{205f}' || c == '\u{3000}'
}

/// Returns the index of the first `c` in `chars[lo..hi]`, or `hi` if there
/// is none.
fn find_in(chars: &Vec<char>, lo: usize, hi: usize, c: char) -> (at: usize)
    requires
        lo <= hi <= chars.len(),
    ensures
        lo <= at <= hi,
        at - lo == find(chars@.subrange(lo as int, hi as int), c),
{
    let mut at = lo;
    while at < hi && chars[at] != c
        invariant
            lo <= at <= hi <= chars.len(),
            find(chars@.subrange(lo as int, hi as int), c) == (at - lo) + find(
                chars@.subrange(at as int, hi as int),
                c,
            ),
        decreases hi - at,
    {
        proof {
            assert(chars@.subrange(at as int, hi as int).drop_first() =~= chars@.subrange(
                at + 1,
                hi as int,
            ));
        }
        at += 1;
    }
    at
}

/// Returns the index at which the word that begins at `lo` ends: that of
/// the first white space from `lo` on, or the length of `chars`.
fn word_end(chars: &Vec<char>, lo: usize) -> (end: usize)
    requires
        lo <= chars.len(),
    ensures
        lo <= end <= chars.len(),
        end - lo == word_len(chars@.skip(lo as int)),
{
    let mut end = lo;
    while end < chars.len() && !is_space_char(chars[end])
        invariant
            lo <= end <= chars.len(),
            word_len(chars@.skip(lo as int)) == (end - lo) + word_len(chars@.skip(end as int)),
        decreases chars.len() - end,
    {
        proof {
            assert(chars@.skip(end as int).drop_first() =~= chars@.skip(end + 1));
        }
        end += 1;
    }
    end
}

/// Reads a point number from `chars[lo..hi]`.
fn parse_point(chars: &Vec<char>, lo: usize, hi: usize) -> (r: Result<Position, ParseError>)
    requires
        lo <= hi <= chars.len(),
    ensures
        r == point_of(chars@.subrange(lo as int, hi as int)),
{
    let ghost token = chars@.subrange(lo as int, hi as int);
    let start = if lo < hi && chars[lo] == '+' {
        lo + 1
    } else {
        lo
    };
    let ghost digits = chars@.subrange(start as int, hi as int);
    proof {
        assert(digits =~= unsigned(token));
    }
    if start == hi {
        return Err(ParseError::Malformed);
    }
    // The value read so far, or 25 once it has gone past the last point.
    let mut value: usize = 0;
    let mut i = start;
    while i < hi
        invariant
            start <= i <= hi <= chars.len(),
            digits == chars@.subrange(start as int, hi as int),
            digits == unsigned(chars@.subrange(lo as int, hi as int)),
            forall|j: int| 0 <= j < i - start ==> is_digit(#[trigger] digits[j]),
            value <= POINTS + 1,
            value == if decimal(chars@.subrange(start as int, i as int)) > POINTS {
                POINTS + 1
            } else {
                decimal(chars@.subrange(start as int, i as int)) as int
            },
        decreases hi - i,
    {
        let c = chars[i];
        if !('0' <= c && c <= '9') {
            proof {
                assert(digits[i - start] == c);
            }
            return Err(ParseError::Malformed);
        }
        let d = (c as u32 - '0' as u32) as usize;
        proof {
            let read = chars@.subrange(start as int, i + 1);
            assert(read.drop_last() =~= chars@.subrange(start as int, i as int));
            assert(read.last() == c);
        }
        if value <= POINTS {
            value = value * 10 + d;
            if value > POINTS {
                value = POINTS + 1;
            }
        }
        i += 1;
    }
    proof {
        assert(chars@.subrange(start as int, i as int) == digits);
        assert(is_digits(digits));
    }
    if value < 1 || value > POINTS {
        Err(ParseError::OutOfRange)
    } else {
        Ok(value - 1)
    }
}

/// Reads a submove from `chars[lo..hi]`.
fn parse_submove(chars: &Vec<char>, lo: usize, hi: usize) -> (r: Result<Submove, ParseError>)
    requires
        lo <= hi <= chars.len(),
    ensures
        r == submove_of(chars@.subrange(lo as int, hi as int)),
{
    let ghost text = chars@.subrange(lo as int, hi as int);
    let at = find_in(chars, lo, hi, SEPARATOR);
    if at == hi {
        return Err(ParseError::MissingSeparator);
    }
    let ghost origin = text.take(at - lo);
    let ghost destination = text.skip(at - lo + 1);
    proof {
        assert(origin =~= chars@.subrange(lo as int, at as int));
        assert(destination =~= chars@.subrange(at + 1, hi as int));
    }
    if find_in(chars, at + 1, hi, SEPARATOR) < hi {
        return Err(ParseError::ExtraSeparator);
    }
    let from_bar = at - lo == 3 && chars[lo] == 'b' && chars[lo + 1] == 'a' && chars[lo + 2]
        == 'r';
    let bears_off = hi - at == 2 && chars[at + 1] == 'o';
    proof {
        if from_bar {
            assert(origin =~= bar_token());
        } else if origin == bar_token() {
            assert(origin[0] == 'b' && origin[1] == 'a' && origin[2] == 'r');
        }
        if bears_off {
            assert(destination =~= off_token());
        } else if destination == off_token() {
            assert(destination[0] == 'o');
        }
    }
    if from_bar {
        match parse_point(chars, at + 1, hi) {
            Ok(to) => Ok(Submove::Enter { to }),
            Err(e) => Err(e),
        }
    } else if bears_off {
        match parse_point(chars, lo, at) {
            Ok(from) => Ok(Submove::BearOff { from }),
            Err(e) => Err(e),
        }
    } else {
        match parse_point(chars, lo, at) {
            Ok(from) => match parse_point(chars, at + 1, hi) {
                Ok(to) => Ok(Submove::Move { from, to }),
                Err(e) => Err(e),
            },
            Err(e) => Err(e),
        }
    }
}

/// Returns the decimal digit that stands for `d`.
fn digit_str(d: usize) -> (text: &'static str)
    requires
        d < 10,
    ensures
        text@ == seq![digit_char(d as nat)],
{
    let text = match d {
        0 => "0",
        1 => "1",
        2 => "2",
        3 => "3",
        4 => "4",
        5 => "5",
        6 => "6",
        7 => "7",
        8 => "8",
        _ => "9",
    };
    proof {
        reveal_strlit("0");
        reveal_strlit("1");
        reveal_strlit("2");
        reveal_strlit("3");
        reveal_strlit("4");
        reveal_strlit("5");
        reveal_strlit("6");
        reveal_strlit("7");
        reveal_strlit("8");
        reveal_strlit("9");
        assert(text@ =~= seq![digit_char(d as nat)]);
    }
    text
}

/// Writes the number of the point at `position` behind `text`.
fn write_point(text: &mut String, position: Position)
    requires
        position < POINTS,
    ensures
        final(text)@ == old(text)@ + point_text(position),
{
    let number = position + 1;
    if number < 10 {
        text.append(digit_str(number));
    } else {
        text.append(digit_str(number / 10));
        text.append(digit_str(number % 10));
    }
    proof {
        assert(text@ =~= old(text)@ + point_text(position));
    }
}

impl Submove {
    /// Every position that the submove names is one of the 24 points.
    pub open spec fn wf(&self) -> bool {
        match *self {
            Submove::Move { from, to } => from < POINTS && to < POINTS,
            Submove::Enter { to } => to < POINTS,
            Submove::BearOff { from } => from < POINTS,
        }
    }

    /// Slot of the mover's view that the chequer leaves.
    pub open spec fn source(&self) -> int {
        match *self {
            Submove::Move { from, .. } => from + 1,
            Submove::Enter { .. } => BAR as int,
            Submove::BearOff { from } => from + 1,
        }
    }

    /// Slot of the mover's view that the chequer arrives at.
    pub open spec fn destination(&self) -> int {
        match *self {
            Submove::Move { to, .. } => to + 1,
            Submove::Enter { to } => to + 1,
            Submove::BearOff { .. } => BEAR_OFF as int,
        }
    }

    /// Returns the slot of the mover's view that the chequer leaves.
    pub fn source_slot(&self) -> (slot: usize)
        requires
            self.wf(),
        ensures
            slot == self.source(),
            slot < BEAR_OFF,
    {
        match *self {
            Submove::Move { from, .. } => from + 1,
            Submove::Enter { .. } => BAR,
            Submove::BearOff { from } => from + 1,
        }
    }

    /// Returns the slot of the mover's view that the chequer arrives at.
    pub fn destination_slot(&self) -> (slot: usize)
        requires
            self.wf(),
        ensures
            slot == self.destination(),
            0 < slot <= BEAR_OFF,
    {
        match *self {
            Submove::Move { to, .. } => to + 1,
            Submove::Enter { to } => to + 1,
            Submove::BearOff { .. } => BEAR_OFF,
        }
    }

    /// Tells whether every position that the submove names is one of the 24
    /// points.
    pub fn is_wf(&self) -> (ok: bool)
        ensures
            ok == self.wf(),
    {
        match *self {
            Submove::Move { from, to } => from < POINTS && to < POINTS,
            Submove::Enter { to } => to < POINTS,
            Submove::BearOff { from } => from < POINTS,
        }
    }

    /// Writes the submove behind `text`.
    pub fn write_to(&self, text: &mut String)
        requires
            self.wf(),
        ensures
            final(text)@ == old(text)@ + submove_text(*self),
    {
        proof {
            reveal_strlit("bar");
            reveal_strlit("/");
            reveal_strlit("o");
        }
        match *self {
            Submove::Move { from, to } => {
                write_point(text, from);
                text.append("/");
                write_point(text, to);
            },
            Submove::Enter { to } => {
                text.append("bar");
                text.append("/");
                write_point(text, to);
            },
            Submove::BearOff { from } => {
                write_point(text, from);
                text.append("/");
                text.append("o");
            },
        }
        proof {
            assert(text@ =~= old(text)@ + submove_text(*self));
        }
    }

    /// Returns the submove in writing, as [`Submove::parse`] reads it.
    pub fn render(&self) -> (text: String)
        requires
            self.wf(),
        ensures
            text@ == submove_text(*self),
    {
        let mut text = String::new();
        self.write_to(&mut text);
        proof {
            assert(text@ =~= submove_text(*self));
        }
        text
    }

    /// Reads a submove: `<origin>/<destination>`, where both are point
    /// numbers from 1 to 24, or the origin is `bar`, or the destination is
    /// `o`. The positions of the submove are the point numbers less one.
    pub fn parse(s: &str) -> (r: Result<Submove, ParseError>)
        ensures
            r == submove_of(s@),
    {
        let chars = chars_of(s);
        proof {
            assert(chars@.subrange(0, chars.len() as int) =~= s@);
        }
        parse_submove(&chars, 0, chars.len())
    }
}

impl FromStr for Submove {
    type Err = ParseError;

    /// Reads a submove, as [`Submove::parse`] does.
    fn from_str(s: &str) -> (r: Result<Self, Self::Err>)
        ensures
            r == submove_of(s@),
    {
        Submove::parse(s)
    }
}

impl Move {
    /// The move holds a submove, and each of its submoves names points
    /// only.
    pub open spec fn wf(&self) -> bool {
        self@.len() > 0 && all_wf(self@)
    }

    /// Returns the move in writing, as [`Move::new`] reads it: its
    /// submoves, with one blank between each two.
    pub fn render(&self) -> (text: String)
        requires
            all_wf(self@),
        ensures
            text@ == move_text(self@),
    {
        let mut text = String::new();
        let mut i: usize = 0;
        proof {
            assert(self@.skip(0) =~= self@);
            assert(text@ + move_text(self@) =~= move_text(self@));
        }
        while i < self.submoves.len()
            invariant
                i <= self@.len(),
                all_wf(self@),
                move_text(self@) == if 0 < i < self@.len() {
                    text@ + seq![' '] + move_text(self@.skip(i as int))
                } else {
                    text@ + move_text(self@.skip(i as int))
                },
            decreases self@.len() - i,
        {
            let ghost before = text@;
            let ghost rest = self@.skip(i as int);
            if i > 0 {
                text.append(" ");
            }
            proof {
                reveal_strlit(" ");
                assert(rest[0] == self@[i as int]);
                assert(self@[i as int].wf());
                assert(rest.drop_first() =~= self@.skip(i + 1));
            }
            self.submoves[i].write_to(&mut text);
            i += 1;
            proof {
                let written = submove_text(self@[i - 1]);
                let after = move_text(self@.skip(i as int));
                if i < self@.len() {
                    assert(move_text(rest) == written + seq![' '] + after);
                    if i > 1 {
                        assert(before + seq![' '] + (written + seq![' '] + after) =~= before
                            + seq![' '] + written + seq![' '] + after);
                    } else {
                        assert(before + (written + seq![' '] + after) =~= before + written
                            + seq![' '] + after);
                    }
                } else {
                    assert(move_text(rest) == written);
                    assert(after =~= Seq::<char>::empty());
                    assert(text@ + after =~= text@);
                }
            }
        }
        proof {
            assert(move_text(self@.skip(i as int)) =~= Seq::<char>::empty());
            assert(text@ + Seq::<char>::empty() =~= text@);
        }
        text
    }

    /// Reads a move: one submove or more, with white space between them
    /// and, if one likes, before and behind them. If any of them cannot be
    /// read, nothing is: the error is that of the first such submove.
    pub fn new(s: &str) -> (r: Result<Move, ParseError>)
        ensures
            r matches Ok(m) ==> move_of(s@) == Ok::<Seq<Submove>, ParseError>(m@) && m.wf(),
            r matches Err(e) ==> move_of(s@) == Err::<Seq<Submove>, ParseError>(e),
    {
        proof {
            lemma_read_move_wf(s@);
        }
        let chars = chars_of(s);
        let mut submoves: Vec<Submove> = Vec::new();
        let ghost mut read: Seq<Seq<char>> = Seq::empty();
        let mut i: usize = 0;
        proof {
            assert(chars@.skip(0) =~= chars@);
        }
        while i < chars.len()
            invariant
                i <= chars.len(),
                chars@ == s@,
                words(chars@) == read + words(chars@.skip(i as int)),
                submoves_of(read) == Ok::<Seq<Submove>, ParseError>(submoves@),
                read.len() == submoves.len(),
            decreases chars.len() - i,
        {
            let ghost rest = chars@.skip(i as int);
            if is_space_char(chars[i]) {
                proof {
                    assert(rest.drop_first() =~= chars@.skip(i + 1));
                }
                i += 1;
            } else {
                let end = word_end(&chars, i);
                let ghost word = chars@.subrange(i as int, end as int);
                proof {
                    lemma_word_len_bounds(rest);
                    assert(rest.take(end - i) =~= word);
                    assert(rest.skip(end - i) =~= chars@.skip(end as int));
                    assert(read + (seq![word] + words(chars@.skip(end as int))) =~= read.push(word)
                        + words(chars@.skip(end as int)));
                    assert(read.push(word).drop_last() =~= read);
                }
                match parse_submove(&chars, i, end) {
                    Ok(submove) => {
                        submoves.push(submove);
                        proof {
                            read = read.push(word);
                        }
                    },
                    Err(e) => {
                        proof {
                            lemma_first_error_stays(
                                read.push(word),
                                words(chars@.skip(end as int)),
                            );
                        }
                        return Err(e);
                    },
                }
                i = end;
            }
        }
        proof {
            assert(words(chars@.skip(i as int)) =~= Seq::<Seq<char>>::empty());
            assert(read + Seq::<Seq<char>>::empty() =~= read);
        }
        if submoves.len() == 0 {
            Err(ParseError::Empty)
        } else {
            Ok(Move { submoves })
        }
    }
}

} // verus!
