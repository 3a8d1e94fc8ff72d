//! The escape scanner: the two-state machine that reads serialized text one
//! character at a time. It is the only place where the executable code
//! interprets escape markers, delimiters and codes.

use crate::convention::{symbol_for, symbol_of, ESC, FD, RD};
use crate::error::DecodeError;
use crate::model::{accepts, next_state, ScanState};
use vstd::prelude::*;

verus! {

/// What one character of serialized text means where it stands.
#[derive(Clone, Copy, Debug, PartialEq, Eq, Structural)]
pub enum Token {
    /// A character of cell content: a plain character read for itself, or
    /// the reserved character that an escape code stands for.
    Content(char),
    /// An unescaped field delimiter.
    FieldBreak,
    /// An unescaped row delimiter.
    RowBreak,
    /// The escape marker: it adds nothing until its code is read.
    Marker,
}

/// The meaning of `c` when it is read in `state`.
pub open spec fn token_of(state: ScanState, c: char) -> Token {
    if state == ScanState::AfterEscape {
        Token::Content(symbol_of(c))
    } else if c == ESC {
        Token::Marker
    } else if c == FD {
        Token::FieldBreak
    } else if c == RD {
        Token::RowBreak
    } else {
        Token::Content(c)
    }
}

/// Reads `c` in `state`: gives the state for the next character and the
/// meaning of `c`, or the malformed-escape error where `c` stands in the
/// place of an escape code and is none.
pub fn step(state: ScanState, c: char) -> (result: Result<(ScanState, Token), DecodeError>)
    ensures
        result == if accepts(state, c) {
            Ok::<(ScanState, Token), DecodeError>((next_state(state, c), token_of(state, c)))
        } else {
            Err::<(ScanState, Token), DecodeError>(DecodeError::MalformedEscape)
        },
{
    match state {
        ScanState::AfterEscape => match symbol_for(c) {
            Some(symbol) => Ok((ScanState::Normal, Token::Content(symbol))),
            None => Err(DecodeError::MalformedEscape),
        },
        ScanState::Normal => if c == ESC {
            Ok((ScanState::AfterEscape, Token::Marker))
        } else if c == FD {
            Ok((ScanState::Normal, Token::FieldBreak))
        } else if c == RD {
            Ok((ScanState::Normal, Token::RowBreak))
        } else {
            Ok((ScanState::Normal, Token::Content(c)))
        },
    }
}

} // verus!
