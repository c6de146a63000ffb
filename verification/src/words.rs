//! Splitting a line into the words that blanks separate.

use vstd::prelude::*;

verus! {

/// A byte that separates words: space, tab, line feed, form feed or
/// carriage return.
pub open spec fn is_blank(byte: u8) -> bool {
    byte == 0x20 || byte == 0x09 || byte == 0x0a || byte == 0x0c || byte == 0x0d
}

/// The number of bytes before the first blank, or before the end where
/// there is no blank.
pub open spec fn word_len(bytes: Seq<u8>) -> nat
    decreases bytes.len(),
{
    if bytes.len() == 0 || is_blank(bytes[0]) {
        0
    } else {
        1 + word_len(bytes.skip(1))
    }
}

/// The words of a line, in order: its longest runs of bytes that are not
/// blank. Blanks only separate: any number of them may stand between two
/// words, before the first and after the last.
pub open spec fn words(line: Seq<u8>) -> Seq<Seq<u8>>
    decreases line.len(),
{
    if line.len() == 0 {
        Seq::empty()
    } else if is_blank(line[0]) {
        words(line.skip(1))
    } else {
        proof {
            lemma_word_len(line);
        }
        seq![line.take(word_len(line) as int)] + words(line.skip(word_len(line) as int))
    }
}

/// The first word ends within the line, holds no blank, and is followed by
/// a blank or by the end of the line. A line that begins with a byte that is
/// not blank begins with a word.
pub proof fn lemma_word_len(bytes: Seq<u8>)
    ensures
        word_len(bytes) <= bytes.len(),
        forall|i: int| 0 <= i < word_len(bytes) ==> !is_blank(#[trigger] bytes[i]),
        word_len(bytes) < bytes.len() ==> is_blank(bytes[word_len(bytes) as int]),
        bytes.len() > 0 && !is_blank(bytes[0]) ==> word_len(bytes) >= 1,
    decreases bytes.len(),
{
    if bytes.len() > 0 && !is_blank(bytes[0]) {
        let rest = bytes.skip(1);
        lemma_word_len(rest);
        assert forall|i: int| 0 <= i < word_len(bytes) implies !is_blank(#[trigger] bytes[i]) by {
            if i > 0 {
                assert(bytes[i] == rest[i - 1]);
            }
        }
        if word_len(bytes) < bytes.len() {
            assert(bytes[word_len(bytes) as int] == rest[word_len(rest) as int]);
        }
    }
}

/// A word has at least one byte and no blank.
pub open spec fn is_word(bytes: Seq<u8>) -> bool {
    &&& bytes.len() > 0
    &&& forall|i: int| 0 <= i < bytes.len() ==> !is_blank(#[trigger] bytes[i])
}

/// Each of the words of a line is a word, and a line of blanks has none.
pub proof fn lemma_words_are_words(line: Seq<u8>)
    ensures
        forall|w: int| 0 <= w < words(line).len() ==> is_word(#[trigger] words(line)[w]),
        (forall|i: int| 0 <= i < line.len() ==> is_blank(#[trigger] line[i])) ==> words(line).len()
            == 0,
    decreases line.len(),
{
    if line.len() == 0 {
    } else if is_blank(line[0]) {
        let rest = line.skip(1);
        lemma_words_are_words(rest);
        if forall|i: int| 0 <= i < line.len() ==> is_blank(#[trigger] line[i]) {
            assert forall|i: int| 0 <= i < rest.len() implies is_blank(#[trigger] rest[i]) by {
                assert(rest[i] == line[i + 1]);
            }
        }
    } else {
        lemma_word_len(line);
        let n = word_len(line) as int;
        let first = line.take(n);
        let rest = words(line.skip(n));
        lemma_words_are_words(line.skip(n));
        assert(is_word(first)) by {
            assert forall|i: int| 0 <= i < first.len() implies !is_blank(#[trigger] first[i]) by {
                assert(first[i] == line[i]);
            }
        }
        assert(words(line) == seq![first] + rest);
        assert forall|w: int| 0 <= w < words(line).len() implies is_word(
            #[trigger] words(line)[w],
        ) by {
            if w > 0 {
                assert(words(line)[w] == rest[w - 1]);
            }
        }
    }
}

/// A run of bytes without a blank that a blank or the end of the line
/// follows is the first word.
pub proof fn lemma_word_len_is(bytes: Seq<u8>, len: int)
    requires
        0 <= len <= bytes.len(),
        forall|i: int| 0 <= i < len ==> !is_blank(#[trigger] bytes[i]),
        len < bytes.len() ==> is_blank(bytes[len]),
    ensures
        word_len(bytes) == len,
    decreases bytes.len(),
{
    if len > 0 {
        let rest = bytes.skip(1);
        assert(!is_blank(bytes[0]));
        assert forall|i: int| 0 <= i < len - 1 implies !is_blank(#[trigger] rest[i]) by {
            assert(rest[i] == bytes[i + 1]);
        }
        lemma_word_len_is(rest, len - 1);
    }
}

} // verus!
