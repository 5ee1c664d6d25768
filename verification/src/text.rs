//! Lines and fields of ASCII text held in bytes.

use crate::bytes::{copy_range, lemma_position_of, position_of};
use vstd::prelude::*;

verus! {

/// Whether a byte is ASCII white space.
pub open spec fn is_space(b: u8) -> bool {
    b == 0x20 || (0x09 <= b <= 0x0d)
}

/// The first position from `pos` on that holds no white space.
pub open spec fn skip_spaces(text: Seq<u8>, pos: int) -> int
    decreases text.len() - pos,
{
    if 0 <= pos < text.len() && is_space(text[pos]) {
        skip_spaces(text, pos + 1)
    } else {
        pos
    }
}

/// The first position from `pos` on that holds white space.
pub open spec fn word_end(text: Seq<u8>, pos: int) -> int
    decreases text.len() - pos,
{
    if 0 <= pos < text.len() && !is_space(text[pos]) {
        word_end(text, pos + 1)
    } else {
        pos
    }
}

/// Where [`skip_spaces`] and [`word_end`] stop.
pub proof fn lemma_word_bounds(text: Seq<u8>, pos: int)
    requires
        0 <= pos <= text.len(),
    ensures
        pos <= skip_spaces(text, pos) <= text.len(),
        skip_spaces(text, pos) < text.len() ==> !is_space(text[skip_spaces(text, pos)]),
        pos <= word_end(text, pos) <= text.len(),
        pos < text.len() && !is_space(text[pos]) ==> pos < word_end(text, pos),
    decreases text.len() - pos,
{
    if pos < text.len() {
        lemma_word_bounds(text, pos + 1);
    }
}

/// The fields of `text` from `pos` on: the runs of bytes between white
/// space.
pub open spec fn fields_from(text: Seq<u8>, pos: int) -> Seq<Seq<u8>>
    decreases text.len() - pos,
{
    let start = skip_spaces(text, pos);
    if pos < 0 || pos > text.len() || start >= text.len() {
        Seq::empty()
    } else {
        proof {
            lemma_word_bounds(text, pos);
            lemma_word_bounds(text, start);
        }
        seq![text.subrange(start, word_end(text, start))] + fields_from(
            text,
            word_end(text, start),
        )
    }
}

/// The fields of a text.
pub open spec fn fields(text: Seq<u8>) -> Seq<Seq<u8>> {
    fields_from(text, 0)
}

/// The mathematical form of a list of byte strings.
pub open spec fn words_view(words: Seq<Vec<u8>>) -> Seq<Seq<u8>> {
    Seq::new(words.len(), |i: int| words[i]@)
}

/// Splits a text into its fields at white space.
pub fn split_fields(text: &[u8]) -> (words: Vec<Vec<u8>>)
    ensures
        words_view(words@) == fields(text@),
{
    let mut words: Vec<Vec<u8>> = Vec::new();
    let mut pos: usize = 0;
    assert(words_view(words@) =~= Seq::<Seq<u8>>::empty());
    loop
        invariant
            pos <= text.len(),
            words_view(words@) + fields_from(text@, pos as int) == fields(text@),
        ensures
            words_view(words@) == fields(text@),
        decreases text.len() - pos,
    {
        let ghost at = pos;
        let mut start: usize = pos;
        while start < text.len() && is_space_byte(text[start])
            invariant
                pos <= start <= text.len(),
                skip_spaces(text@, start as int) == skip_spaces(text@, pos as int),
            decreases text.len() - start,
        {
            start = start + 1;
        }
        if start >= text.len() {
            assert(fields_from(text@, at as int) =~= Seq::<Seq<u8>>::empty());
            assert(words_view(words@) + Seq::<Seq<u8>>::empty() =~= words_view(words@));
            break ;
        }
        let mut end: usize = start;
        while end < text.len() && !is_space_byte(text[end])
            invariant
                start <= end <= text.len(),
                word_end(text@, end as int) == word_end(text@, start as int),
            decreases text.len() - end,
        {
            end = end + 1;
        }
        proof {
            lemma_word_bounds(text@, start as int);
        }
        let word = copy_range(text, start, end);
        let ghost before = words_view(words@);
        words.push(word);
        proof {
            assert(words_view(words@) =~= before.push(text@.subrange(start as int, end as int)));
            assert(before + (seq![text@.subrange(start as int, end as int)] + fields_from(
                text@,
                end as int,
            )) =~= words_view(words@) + fields_from(text@, end as int));
        }
        pos = end;
    }
    words
}

/// Whether a byte is ASCII white space.
pub fn is_space_byte(b: u8) -> (r: bool)
    ensures
        r == is_space(b),
{
    b == 0x20 || (0x09 <= b && b <= 0x0d)
}

/// The line that starts at `start`: what stands before the next line feed,
/// without a carriage return just before that line feed.
pub open spec fn line_at(body: Seq<u8>, start: int) -> Seq<u8> {
    let end = position_of(body, start, 0x0a);
    if start < end < body.len() && body[end - 1] == 0x0d {
        body.subrange(start, end - 1)
    } else {
        body.subrange(start, end)
    }
}

/// The lines of `body` from `start` on.
pub open spec fn lines_from(body: Seq<u8>, start: int) -> Seq<Seq<u8>>
    decreases body.len() - start,
{
    if start < 0 || start >= body.len() {
        Seq::empty()
    } else {
        proof {
            lemma_position_of(body, start, 0x0a);
        }
        let end = position_of(body, start, 0x0a);
        if end >= body.len() {
            seq![line_at(body, start)]
        } else {
            seq![line_at(body, start)] + lines_from(body, end + 1)
        }
    }
}

/// The lines of a text.
pub open spec fn lines_of(body: Seq<u8>) -> Seq<Seq<u8>> {
    lines_from(body, 0)
}

} // verus!
