//! The factor type: one literal byte, or a copy of bytes produced earlier.

use crate::strings::{decimal, push_char, push_decimal};
use vstd::prelude::*;

verus! {

/// One factor of an LZ77 factorization.
///
/// `Char(byte, position)` is a literal: the byte that stands at `position`.
/// `Factor(pattern_start, length, next_index)` copies `length` bytes that begin
/// at `pattern_start` in the output produced so far; `next_index` is the
/// position at which the following factor begins.
#[derive(Debug, Clone, Copy, PartialEq, Eq, Structural)]
pub enum LZFactor {
    Char(u8, usize),
    Factor(usize, usize, usize),
}

impl LZFactor {
    /// Number of bytes that a copy factor copies; a literal has length 0.
    pub open spec fn spec_length(&self) -> nat {
        match *self {
            LZFactor::Char(_, _) => 0,
            LZFactor::Factor(_, len, _) => len as nat,
        }
    }

    /// Position at which the factor after this one begins.
    pub open spec fn spec_next_index(&self) -> int {
        match *self {
            LZFactor::Char(_, index) => index + 1,
            LZFactor::Factor(_, _, next_index) => next_index as int,
        }
    }

    /// Number of bytes that replaying this factor appends to the output.
    pub open spec fn spec_span(&self) -> nat {
        match *self {
            LZFactor::Char(_, _) => 1,
            LZFactor::Factor(_, len, _) => len as nat,
        }
    }

    /// The text that shows this factor: a literal as its character, a copy
    /// factor as its source and its length, `(source, length)`.
    pub open spec fn rendering(&self) -> Seq<char> {
        match *self {
            LZFactor::Char(byte, _) => seq![byte as char],
            LZFactor::Factor(start, len, _) => seq!['('] + decimal(start as nat) + seq![',', ' ']
                + decimal(len as nat) + seq![')'],
        }
    }

    /// A literal factor for `character`, found at `start_index`.
    pub fn new_char(character: u8, start_index: usize) -> (factor: Self)
        ensures
            factor == LZFactor::Char(character, start_index),
    {
        LZFactor::Char(character, start_index)
    }

    /// A copy factor found at `current_index`: `pattern_length` bytes from
    /// `pattern_start_index`. The factor records where the next one begins.
    pub fn new_factor(pattern_start_index: usize, pattern_length: usize, current_index: usize) -> (factor: Self)
        requires
            current_index + pattern_length <= usize::MAX,
        ensures
            factor == LZFactor::Factor(
                pattern_start_index,
                pattern_length,
                (current_index + pattern_length) as usize,
            ),
    {
        LZFactor::Factor(pattern_start_index, pattern_length, current_index + pattern_length)
    }

    pub fn is_char(&self) -> (literal: bool)
        ensures
            literal == (*self is Char),
    {
        match self {
            LZFactor::Char(_, _) => true,
            LZFactor::Factor(_, _, _) => false,
        }
    }

    /// The three fields of a copy factor; `None` for a literal.
    pub fn factor_values(&self) -> (values: Option<(usize, usize, usize)>)
        ensures
            values == (match *self {
                LZFactor::Char(_, _) => None::<(usize, usize, usize)>,
                LZFactor::Factor(pattern_start, pattern_len, next_index) => Some(
                    (pattern_start, pattern_len, next_index),
                ),
            }),
    {
        match self {
            LZFactor::Char(_, _) => None,
            LZFactor::Factor(pattern_start, pattern_len, next_index) => Some(
                (*pattern_start, *pattern_len, *next_index),
            ),
        }
    }

    /// The two fields of a literal; `None` for a copy factor.
    pub fn char_values(&self) -> (values: Option<(u8, usize)>)
        ensures
            values == (match *self {
                LZFactor::Char(character, char_index) => Some((character, char_index)),
                LZFactor::Factor(_, _, _) => None::<(u8, usize)>,
            }),
    {
        match self {
            LZFactor::Char(character, char_index) => Some((*character, *char_index)),
            LZFactor::Factor(_, _, _) => None,
        }
    }

    pub fn length(&self) -> (len: usize)
        ensures
            len == self.spec_length(),
    {
        match self {
            LZFactor::Char(_, _) => 0,
            LZFactor::Factor(_, len, _) => *len,
        }
    }

    /// The text that shows this factor. A literal must hold an ASCII byte: no
    /// other byte is a character by itself.
    pub fn to_string(&self) -> (text: String)
        requires
            match *self {
                LZFactor::Char(byte, _) => byte < 128,
                LZFactor::Factor(_, _, _) => true,
            },
        ensures
            text@ == self.rendering(),
    {
        let mut text = String::new();
        match self {
            LZFactor::Char(c, _) => {
                push_char(&mut text, *c as char);
                assert(text@ =~= self.rendering());
            },
            LZFactor::Factor(pattern_start, len, _) => {
                push_char(&mut text, '(');
                push_decimal(&mut text, *pattern_start);
                push_char(&mut text, ',');
                push_char(&mut text, ' ');
                push_decimal(&mut text, *len);
                push_char(&mut text, ')');
                assert(text@ =~= self.rendering());
            },
        }
        text
    }

    pub fn next_index(&self) -> (next: usize)
        requires
            self.spec_next_index() <= usize::MAX,
        ensures
            next == self.spec_next_index(),
    {
        match self {
            LZFactor::Char(_, index) => *index + 1,
            LZFactor::Factor(_, _, next_index) => *next_index,
        }
    }
}

} // verus!
