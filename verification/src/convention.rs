//! The delimiter convention: the reserved characters and their escape codes.
//!
//! Encoder and decoder both build on these constants and on nothing else of
//! each other, so the two directions agree as long as this module is their
//! only source of the format's symbols.

use vstd::prelude::*;

verus! {

/// The version of the convention. It changes whenever a reserved character
/// or an escape code does: text written under one version is read only
/// under the same.
pub const CONVENTION_VERSION: u32 = 1;

/// Field delimiter: separates the cells of a row (ASCII unit separator).
pub const FD: char = '\u{1f}';

/// Row delimiter: separates the rows of a document (ASCII record separator).
pub const RD: char = '\u{1e}';

/// Escape marker: introduces an escape code (ASCII escape).
pub const ESC: char = '\u{1b}';

/// Escape code that stands for a literal field delimiter.
pub const CODE_FD: char = 'f';

/// Escape code that stands for a literal row delimiter.
pub const CODE_RD: char = 'r';

/// Escape code that stands for a literal escape marker.
pub const CODE_ESC: char = 'e';

/// Whether `c` is one of the three reserved characters.
pub open spec fn is_reserved(c: char) -> bool {
    c == FD || c == RD || c == ESC
}

/// Whether `c` is one of the three escape codes.
pub open spec fn is_code(c: char) -> bool {
    c == CODE_FD || c == CODE_RD || c == CODE_ESC
}

/// The escape code of a reserved character.
pub open spec fn code_of(c: char) -> char
    recommends
        is_reserved(c),
{
    if c == FD {
        CODE_FD
    } else if c == RD {
        CODE_RD
    } else {
        CODE_ESC
    }
}

/// The reserved character that an escape code stands for.
pub open spec fn symbol_of(code: char) -> char
    recommends
        is_code(code),
{
    if code == CODE_FD {
        FD
    } else if code == CODE_RD {
        RD
    } else {
        ESC
    }
}

/// The escape code of `c` if `c` is reserved, and `None` if it is not.
pub fn code_for(c: char) -> (code: Option<char>)
    ensures
        code == if is_reserved(c) {
            Some(code_of(c))
        } else {
            None
        },
{
    if c == FD {
        Some(CODE_FD)
    } else if c == RD {
        Some(CODE_RD)
    } else if c == ESC {
        Some(CODE_ESC)
    } else {
        None
    }
}

/// The reserved character that `code` stands for if `code` is an escape
/// code, and `None` if it is not.
pub fn symbol_for(code: char) -> (symbol: Option<char>)
    ensures
        symbol == if is_code(code) {
            Some(symbol_of(code))
        } else {
            None
        },
{
    if code == CODE_FD {
        Some(FD)
    } else if code == CODE_RD {
        Some(RD)
    } else if code == CODE_ESC {
        Some(ESC)
    } else {
        None
    }
}

/// The convention is reversible: the three reserved characters are distinct
/// and none is the line feed, each has a code of its own, no code is itself
/// reserved, and reading a code gives back the character it was written for.
pub proof fn lemma_convention_reversible()
    ensures
        FD != RD && FD != ESC && RD != ESC,
        !is_reserved('\n'),
        CODE_FD != CODE_RD && CODE_FD != CODE_ESC && CODE_RD != CODE_ESC,
        forall|c: char| is_reserved(c) ==> is_code(#[trigger] code_of(c)) && symbol_of(code_of(c)) == c,
        forall|c: char| is_code(c) ==> is_reserved(#[trigger] symbol_of(c)) && code_of(symbol_of(c)) == c,
        forall|c: char| #[trigger] is_code(c) ==> !is_reserved(c),
{
}

} // verus!
