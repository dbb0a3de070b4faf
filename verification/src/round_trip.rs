//! What is written can be read again: the laws that tie the writing of
//! submoves and moves to their reading.

use vstd::prelude::*;

use crate::constants::POINTS;
use crate::moves::{all_wf, ParseError, Position, Submove};
use crate::notation::{
    bar_token, decimal, digit_char, find, is_digit, is_digits, is_space, move_of, move_text,
    off_token, point_of, point_text, submove_of, submove_text, submoves_of, unsigned, word_len,
    words, SEPARATOR,
};

verus! {

/// How each submove of a sequence is written.
pub open spec fn texts(submoves: Seq<Submove>) -> Seq<Seq<char>> {
    Seq::new(submoves.len(), |i: int| submove_text(submoves[i]))
}

/// The first occurrence of `c` is where `c` stands with no `c` before it,
/// and the end of the text where no `c` stands at all.
pub proof fn lemma_find_first(text: Seq<char>, c: char, at: int)
    requires
        0 <= at <= text.len(),
        forall|j: int| 0 <= j < at ==> text[j] != c,
        at < text.len() ==> text[at] == c,
    ensures
        find(text, c) == at,
    decreases at,
{
    if at > 0 {
        lemma_find_first(text.drop_first(), c, at - 1);
    }
}

/// A position is written in one or two digits, and read back as itself.
pub proof fn lemma_point_round_trip(position: Position)
    requires
        position < POINTS,
    ensures
        point_of(point_text(position)) == Ok::<Position, ParseError>(position),
        1 <= point_text(position).len() <= 2,
        forall|i: int|
            0 <= i < point_text(position).len() ==> is_digit(#[trigger] point_text(position)[i]),
{
    let text = point_text(position);
    let number = (position + 1) as nat;
    assert(unsigned(text) == text);
    assert(is_digits(text));
    if number < 10 {
        assert(text.drop_last() =~= Seq::<char>::empty());
        assert(decimal(text.drop_last()) == 0);
        assert(decimal(text) == number);
    } else {
        assert(text.drop_last() =~= seq![digit_char(number / 10)]);
        assert(text.drop_last().drop_last() =~= Seq::<char>::empty());
        assert(decimal(text.drop_last().drop_last()) == 0);
        assert(decimal(text.drop_last()) == number / 10);
        assert(decimal(text) == number);
    }
}

/// A submove that names points only is read back as itself from what it
/// is written as.
pub proof fn lemma_submove_round_trip(s: Submove)
    requires
        s.wf(),
    ensures
        submove_of(submove_text(s)) == Ok::<Submove, ParseError>(s),
{
    let text = submove_text(s);
    match s {
        Submove::Move { from, to } => {
            lemma_point_round_trip(from);
            lemma_point_round_trip(to);
            let at = point_text(from).len() as int;
            lemma_find_first(text, SEPARATOR, at);
            assert(text.take(at) =~= point_text(from));
            assert(text.skip(at + 1) =~= point_text(to));
            lemma_find_first(point_text(to), SEPARATOR, point_text(to).len() as int);
            assert(is_digit(point_text(from)[0]));
            assert(is_digit(point_text(to)[0]));
        },
        Submove::Enter { to } => {
            lemma_point_round_trip(to);
            lemma_find_first(text, SEPARATOR, 3);
            assert(text.take(3) =~= bar_token());
            assert(text.skip(4) =~= point_text(to));
            lemma_find_first(point_text(to), SEPARATOR, point_text(to).len() as int);
        },
        Submove::BearOff { from } => {
            lemma_point_round_trip(from);
            let at = point_text(from).len() as int;
            lemma_find_first(text, SEPARATOR, at);
            assert(text.take(at) =~= point_text(from));
            assert(text.skip(at + 1) =~= off_token());
            lemma_find_first(off_token(), SEPARATOR, 1);
            assert(is_digit(point_text(from)[0]));
        },
    }
}

/// A submove that was read names points only.
pub proof fn lemma_read_submove_wf(text: Seq<char>)
    ensures
        submove_of(text) matches Ok(s) ==> s.wf(),
{
}

/// Reading a text, writing the submove that it denotes and reading that
/// again gives the same submove.
pub proof fn lemma_read_write_read(text: Seq<char>)
    ensures
        submove_of(text) matches Ok(s) ==> submove_of(submove_text(s)) == submove_of(text),
{
    if let Ok(s) = submove_of(text) {
        lemma_submove_round_trip(s);
    }
}

/// What a submove is written as is one word: it is not empty and holds no
/// white space.
pub proof fn lemma_submove_text_is_word(s: Submove)
    requires
        s.wf(),
    ensures
        submove_text(s).len() > 0,
        forall|i: int| 0 <= i < submove_text(s).len() ==> !is_space(#[trigger] submove_text(s)[i]),
{
    match s {
        Submove::Move { from, to } => {
            lemma_point_round_trip(from);
            lemma_point_round_trip(to);
        },
        Submove::Enter { to } => {
            lemma_point_round_trip(to);
        },
        Submove::BearOff { from } => {
            lemma_point_round_trip(from);
        },
    }
    let text = submove_text(s);
    assert forall|i: int| 0 <= i < text.len() implies !is_space(#[trigger] text[i]) by {
        match s {
            Submove::Move { from, to } => {
                let at = point_text(from).len();
                if i < at {
                    assert(text[i] == point_text(from)[i]);
                } else if i > at {
                    assert(text[i] == point_text(to)[i - at - 1]);
                }
            },
            Submove::Enter { to } => {
                if i > 3 {
                    assert(text[i] == point_text(to)[i - 4]);
                }
            },
            Submove::BearOff { from } => {
                let at = point_text(from).len();
                if i < at {
                    assert(text[i] == point_text(from)[i]);
                }
            },
        }
    }
}

/// A stretch without white space, followed by white space or by nothing, is
/// the first word of a text.
proof fn lemma_first_word(word: Seq<char>, tail: Seq<char>)
    requires
        forall|i: int| 0 <= i < word.len() ==> !is_space(#[trigger] word[i]),
        tail.len() > 0 ==> is_space(tail[0]),
    ensures
        word_len(word + tail) == word.len(),
    decreases word.len(),
{
    if word.len() == 0 {
        assert(word + tail =~= tail);
    } else {
        assert((word + tail)[0] == word[0]);
        assert((word + tail).drop_first() =~= word.drop_first() + tail);
        assert forall|i: int| 0 <= i < word.drop_first().len() implies !is_space(
            #[trigger] word.drop_first()[i],
        ) by {
            assert(word.drop_first()[i] == word[i + 1]);
        }
        lemma_first_word(word.drop_first(), tail);
    }
}

/// The words of what a move is written as are what its submoves are
/// written as.
proof fn lemma_words_of_move_text(submoves: Seq<Submove>)
    requires
        all_wf(submoves),
    ensures
        words(move_text(submoves)) == texts(submoves),
    decreases submoves.len(),
{
    if submoves.len() == 0 {
        assert(texts(submoves) =~= Seq::<Seq<char>>::empty());
    } else {
        let first = submove_text(submoves[0]);
        let rest = submoves.drop_first();
        assert(submoves[0].wf());
        lemma_submove_text_is_word(submoves[0]);
        let tail = if submoves.len() == 1 {
            Seq::<char>::empty()
        } else {
            seq![' '] + move_text(rest)
        };
        let text = move_text(submoves);
        assert(text =~= first + tail);
        lemma_first_word(first, tail);
        assert(text[0] == first[0]);
        assert(text.take(first.len() as int) =~= first);
        assert(text.skip(first.len() as int) =~= tail);
        assert(words(text) == seq![first] + words(tail));
        assert(all_wf(rest)) by {
            assert forall|i: int| 0 <= i < rest.len() implies (#[trigger] rest[i]).wf() by {
                assert(rest[i] == submoves[i + 1]);
            }
        }
        lemma_words_of_move_text(rest);
        if submoves.len() == 1 {
            assert(rest =~= Seq::<Submove>::empty());
            assert(words(tail) =~= Seq::<Seq<char>>::empty());
        } else {
            assert(tail.drop_first() =~= move_text(rest));
            assert(words(tail) == words(move_text(rest)));
        }
        assert(seq![first] + texts(rest) =~= texts(submoves));
    }
}

/// Reading what each submove is written as gives the submoves again.
proof fn lemma_submoves_of_texts(submoves: Seq<Submove>)
    requires
        all_wf(submoves),
    ensures
        submoves_of(texts(submoves)) == Ok::<Seq<Submove>, ParseError>(submoves),
    decreases submoves.len(),
{
    if submoves.len() == 0 {
        assert(submoves =~= Seq::<Submove>::empty());
    } else {
        let init = submoves.drop_last();
        lemma_submoves_of_texts(init);
        assert(texts(submoves).drop_last() =~= texts(init));
        assert(submoves.last().wf());
        lemma_submove_round_trip(submoves.last());
        assert(init.push(submoves.last()) =~= submoves);
    }
}

/// A move that holds a submove, and whose submoves name points only, is
/// read back as itself from what it is written as.
pub proof fn lemma_move_round_trip(submoves: Seq<Submove>)
    requires
        submoves.len() > 0,
        all_wf(submoves),
    ensures
        move_of(move_text(submoves)) == Ok::<Seq<Submove>, ParseError>(submoves),
{
    lemma_words_of_move_text(submoves);
    lemma_submoves_of_texts(submoves);
}

/// A move that was read holds a submove, and its submoves name points
/// only.
pub proof fn lemma_read_move_wf(text: Seq<char>)
    ensures
        move_of(text) matches Ok(submoves) ==> submoves.len() > 0 && all_wf(submoves),
{
    lemma_read_words_wf(words(text));
}

/// The submoves read from words are as many as the words, and name points
/// only.
proof fn lemma_read_words_wf(list: Seq<Seq<char>>)
    ensures
        submoves_of(list) matches Ok(submoves) ==> submoves.len() == list.len() && all_wf(
            submoves,
        ),
    decreases list.len(),
{
    if list.len() > 0 {
        lemma_read_words_wf(list.drop_last());
    }
}

} // verus!
