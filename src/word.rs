//! Tokens of the model: the two sentence-start markers, the end marker, and
//! references into the vocabulary.

use vstd::prelude::*;
use crate::bytes::{le_bytes, le_value, lemma_le_value_of_bytes, to_4u8, to_u32};

verus! {

/// A token: a structural marker or the id of a vocabulary word.
#[derive(Clone, Copy, PartialEq, Eq, Structural, Hash, Debug)]
pub enum Word {
    Start1,
    Start2,
    Word(u32),
    End,
}

/// The tag byte of a token's five-byte cell.
pub open spec fn tag_of(w: Word) -> u8 {
    match w {
        Word::Start1 => 1,
        Word::Start2 => 2,
        Word::Word(_) => 0,
        Word::End => 0xff,
    }
}

/// The five-byte cell of a token: its tag, then the id little-endian for a
/// vocabulary word and four zero bytes for a marker.
pub open spec fn word_cell(w: Word) -> Seq<u8> {
    match w {
        Word::Word(i) => seq![0u8] + le_bytes(i),
        _ => seq![tag_of(w), 0u8, 0u8, 0u8, 0u8],
    }
}

/// The token that the first five bytes of `b` hold, if their tag is known.
pub open spec fn cell_word(b: Seq<u8>) -> Option<Word> {
    if b.len() < 5 {
        None
    } else if b[0] == 0 {
        Some(Word::Word(le_value(b.subrange(1, 5))))
    } else if b[0] == 1 {
        Some(Word::Start1)
    } else if b[0] == 2 {
        Some(Word::Start2)
    } else if b[0] == 0xff {
        Some(Word::End)
    } else {
        None
    }
}

/// A token's cell reads back as that token, whatever follows it.
pub proof fn lemma_cell_word_of_cell(w: Word, rest: Seq<u8>)
    ensures
        word_cell(w).len() == 5,
        cell_word(word_cell(w) + rest) == Some(w),
{
    let b = word_cell(w) + rest;
    if let Word::Word(i) = w {
        lemma_le_value_of_bytes(i);
        assert(b.subrange(1, 5) =~= le_bytes(i));
    }
}

impl Word {
    /// The five-byte cell of this token.
    pub fn into_bytes(&self) -> (r: [u8; 5])
        ensures
            r@ == word_cell(*self),
    {
        let r = match *self {
            Word::Start1 => [1u8, 0, 0, 0, 0],
            Word::Start2 => [2u8, 0, 0, 0, 0],
            Word::End => [0xffu8, 0, 0, 0, 0],
            Word::Word(i) => {
                let b = to_4u8(i);
                [0u8, b[0], b[1], b[2], b[3]]
            },
        };
        assert(r@ =~= word_cell(*self));
        r
    }

    /// The token held in the first five bytes of `bytes`; `None` where there
    /// are fewer than five bytes or the tag is unknown.
    pub fn from_bytes(bytes: &[u8]) -> (r: Option<Word>)
        ensures
            r == cell_word(bytes@),
    {
        if bytes.len() < 5 {
            return None;
        }
        match bytes[0] {
            0 => {
                let v = to_u32(&bytes[1..5]);
                Some(Word::Word(v.unwrap()))
            },
            1 => Some(Word::Start1),
            2 => Some(Word::Start2),
            0xff => Some(Word::End),
            _ => None,
        }
    }
}

} // verus!
