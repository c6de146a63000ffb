//! One row of the grid, as a line of text.

use crate::decimal::{parse_decimal, parsed};
use crate::error::InputError;
use crate::words::{is_blank, lemma_word_len_is, words};
use vstd::prelude::*;
use vstd::slice::slice_subrange;
use vstd::string::StringSliceAdditionalSpecFns;

verus! {

/// The bytes of each line.
pub open spec fn bytes_of(lines: Seq<&str>) -> Seq<Seq<u8>> {
    lines.map_values(|line: &str| line.spec_bytes())
}

/// The pile height that a word writes, if it writes one.
pub open spec fn pile_of(word: Seq<u8>) -> Option<nat> {
    parsed(word, u32::MAX as nat)
}

/// What a line is worth as a row of `size` piles: the heights that its words
/// write, in order; or the first thing that is wrong with it. A word that
/// writes no height is found before the number of words is looked at.
pub open spec fn row_of(line: Seq<u8>, size: usize) -> Result<Seq<u32>, InputError> {
    let cells = words(line);
    if exists|w: int| 0 <= w < cells.len() && pile_of(#[trigger] cells[w]) is None {
        Err(InputError::MalformedCell)
    } else if cells.len() != size {
        Err(InputError::RowWidthMismatch { expected: size })
    } else {
        Ok(Seq::new(cells.len(), |w: int| pile_of(cells[w])->0 as u32))
    }
}

/// Whether a byte separates words.
pub fn is_blank_byte(byte: u8) -> (blank: bool)
    ensures
        blank == is_blank(byte),
{
    byte == 0x20 || byte == 0x09 || byte == 0x0a || byte == 0x0c || byte == 0x0d
}

/// Reads a line as a row of `size` piles.
pub fn parse_row(line: &str, size: usize) -> (row: Result<Vec<u32>, InputError>)
    ensures
        match row {
            Ok(piles) => row_of(line.spec_bytes(), size) == Ok::<Seq<u32>, InputError>(piles@),
            Err(error) => row_of(line.spec_bytes(), size) == Err::<Seq<u32>, InputError>(error),
        },
{
    let bytes = line.as_bytes();
    let len = bytes.len();
    let mut piles: Vec<u32> = Vec::new();
    let mut at: usize = 0;
    let ghost mut done: Seq<Seq<u8>> = Seq::empty();
    assert(bytes@.skip(0) =~= bytes@);
    while at < len
        invariant
            at <= len,
            len == bytes@.len(),
            bytes@ == line.spec_bytes(),
            words(bytes@) == done + words(bytes@.skip(at as int)),
            piles@.len() == done.len(),
            forall|w: int| 0 <= w < done.len() ==> pile_of(#[trigger] done[w]) == Some(piles@[w] as nat),
        decreases len - at,
    {
        let ghost rest = bytes@.skip(at as int);
        if is_blank_byte(bytes[at]) {
            assert(rest.skip(1) =~= bytes@.skip(at + 1));
            at += 1;
        } else {
            let mut end: usize = at + 1;
            while end < len && !is_blank_byte(bytes[end])
                invariant
                    at < end <= len,
                    len == bytes@.len(),
                    forall|k: int| at <= k < end ==> !is_blank(#[trigger] bytes@[k]),
                decreases len - end,
            {
                end += 1;
            }
            let word = slice_subrange(bytes, at, end);
            proof {
                assert forall|k: int| 0 <= k < end - at implies !is_blank(#[trigger] rest[k]) by {
                    assert(rest[k] == bytes@[at + k]);
                }
                lemma_word_len_is(rest, end - at);
                assert(rest.take(end - at) =~= word@);
                assert(rest.skip(end - at) =~= bytes@.skip(end as int));
                assert(words(bytes@) =~= done.push(word@) + words(bytes@.skip(end as int)));
            }
            match parse_decimal(word, u32::MAX as u64) {
                Some(height) => {
                    piles.push(height as u32);
                    proof {
                        done = done.push(word@);
                    }
                },
                None => {
                    assert(words(bytes@)[done.len() as int] == word@);
                    return Err(InputError::MalformedCell);
                },
            }
            at = end;
        }
    }
    proof {
        assert(words(bytes@) =~= done);
        assert(forall|w: int| 0 <= w < done.len() ==> pile_of(#[trigger] done[w]) is Some);
    }
    if piles.len() != size {
        Err(InputError::RowWidthMismatch { expected: size })
    } else {
        assert(piles@ =~= Seq::new(done.len(), |w: int| pile_of(done[w])->0 as u32));
        Ok(piles)
    }
}

} // verus!
