//! The mathematical model of the format.
//!
//! Text is a sequence of characters; a cell is a sequence of characters, a
//! row a sequence of cells and a document a sequence of rows. The functions
//! here say what the encoder writes and what the decoder reads; the
//! executable code is proved against them.

use crate::convention::{code_of, is_code, is_reserved, symbol_of, ESC, FD, RD};
use crate::error::DecodeError;
use vstd::prelude::*;

verus! {

/// Serialized text, or the content of one cell.
pub type Text = Seq<char>;

/// The cells of one row.
pub type Row = Seq<Text>;

/// The rows of one document.
pub type Document = Seq<Row>;

/// The two states of a left-to-right scan of serialized text.
#[derive(Clone, Copy, Debug, PartialEq, Eq, Structural)]
pub enum ScanState {
    /// The next character is read for what it is.
    Normal,
    /// The previous character was the escape marker: the next character is
    /// read as an escape code.
    AfterEscape,
}

/// The state in which the character after `c` is read, when `c` is read in
/// `state`.
pub open spec fn next_state(state: ScanState, c: char) -> ScanState {
    if state == ScanState::Normal && c == ESC {
        ScanState::AfterEscape
    } else {
        ScanState::Normal
    }
}

/// The state of the scan after all of `text` has been read.
pub open spec fn state_after(text: Text) -> ScanState
    decreases text.len(),
{
    if text.len() == 0 {
        ScanState::Normal
    } else {
        next_state(state_after(text.drop_last()), text.last())
    }
}

/// Whether `c` may be read in `state`: after an escape marker only an
/// escape code may follow.
pub open spec fn accepts(state: ScanState, c: char) -> bool {
    state == ScanState::AfterEscape ==> is_code(c)
}

/// Whether every character of `text` that is read as an escape code is one
/// of the three codes.
pub open spec fn escapes_valid(text: Text) -> bool
    decreases text.len(),
{
    text.len() == 0 || (escapes_valid(text.drop_last()) && accepts(
        state_after(text.drop_last()),
        text.last(),
    ))
}

/// Whether `text` is free of malformed escapes: every escape marker is
/// followed by an escape code, and so the text does not end in a marker
/// that waits for its code.
pub open spec fn well_formed(text: Text) -> bool {
    escapes_valid(text) && state_after(text) == ScanState::Normal
}

/// The escaped form of one character: a reserved character becomes the
/// escape marker and its code, any other character stands for itself.
pub open spec fn escape_char(c: char) -> Text {
    if is_reserved(c) {
        seq![ESC, code_of(c)]
    } else {
        seq![c]
    }
}

/// The escaped form of a cell: the escaped forms of its characters, in order.
pub open spec fn escape_cell(cell: Text) -> Text
    decreases cell.len(),
{
    if cell.len() == 0 {
        Seq::empty()
    } else {
        escape_cell(cell.drop_last()) + escape_char(cell.last())
    }
}

/// The content of a raw cell: an escape marker and the code after it give
/// the reserved character that the code stands for, and every other
/// character gives itself.
pub open spec fn unescape_cell(raw: Text) -> Text
    decreases raw.len(),
{
    if raw.len() == 0 {
        Seq::empty()
    } else if state_after(raw.drop_last()) == ScanState::AfterEscape {
        unescape_cell(raw.drop_last()).push(symbol_of(raw.last()))
    } else if raw.last() == ESC {
        unescape_cell(raw.drop_last())
    } else {
        unescape_cell(raw.drop_last()).push(raw.last())
    }
}

/// The pieces of `text` between the unescaped occurrences of `delimiter`.
/// There is always at least one piece; an occurrence that is read as an
/// escape code separates nothing.
pub open spec fn split(text: Text, delimiter: char) -> Seq<Text>
    decreases text.len(),
{
    if text.len() == 0 {
        seq![Seq::empty()]
    } else {
        let before = split(text.drop_last(), delimiter);
        if text.last() == delimiter && state_after(text.drop_last()) == ScanState::Normal {
            before.push(Seq::empty())
        } else {
            before.drop_last().push(before.last().push(text.last()))
        }
    }
}

/// The pieces written one after another with one `delimiter` between each
/// two neighbours.
pub open spec fn join(pieces: Seq<Text>, delimiter: char) -> Text
    decreases pieces.len(),
{
    if pieces.len() == 0 {
        Seq::empty()
    } else if pieces.len() == 1 {
        pieces[0]
    } else {
        join(pieces.drop_last(), delimiter).push(delimiter) + pieces.last()
    }
}

/// The text of a row: its escaped cells joined by the field delimiter.
pub open spec fn encode_row(row: Row) -> Text {
    join(row.map_values(|cell: Text| escape_cell(cell)), FD)
}

/// The text of a document: the texts of its rows joined by the row
/// delimiter. There is no delimiter after the last row.
pub open spec fn encode_doc(doc: Document) -> Text {
    join(doc.map_values(|row: Row| encode_row(row)), RD)
}

/// The row that a raw row stands for: its pieces between unescaped field
/// delimiters, each unescaped. A raw row without any delimiter is one cell,
/// also when it is empty.
pub open spec fn decode_row(raw: Text) -> Row {
    split(raw, FD).map_values(|piece: Text| unescape_cell(piece))
}

/// The raw rows of a text: its pieces between unescaped row delimiters,
/// without the last piece where that is empty. So the empty text has no
/// rows, and a row delimiter at the very end starts no further row.
pub open spec fn raw_rows(text: Text) -> Seq<Text> {
    let pieces = split(text, RD);
    if pieces.last().len() == 0 {
        pieces.drop_last()
    } else {
        pieces
    }
}

/// The rows that a text stands for.
pub open spec fn decode_rows(text: Text) -> Document {
    raw_rows(text).map_values(|raw: Text| decode_row(raw))
}

/// What decoding `text` yields: its rows where the text is well formed, and
/// the malformed-escape error where it is not.
pub open spec fn decode_doc(text: Text) -> Result<Document, DecodeError> {
    if well_formed(text) {
        Ok(decode_rows(text))
    } else {
        Err(DecodeError::MalformedEscape)
    }
}

} // verus!
