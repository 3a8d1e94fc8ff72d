//! The decoder: from text to cells, rows and documents.
//!
//! Both functions read their input once, from left to right, through the
//! escape scanner, and fail on the first malformed escape they meet.

use crate::convention::{FD, RD};
use crate::error::DecodeError;
use crate::lemmas::{lemma_escapes_valid_prefix, lemma_split_last, lemma_unescape_cell_length};
use crate::model::{
    decode_doc, decode_row, decode_rows, escapes_valid, split, state_after, unescape_cell,
    well_formed, Document, Row, ScanState, Text,
};
use crate::scanner::{step, token_of, Token};
use crate::strings::with_room;
use vstd::prelude::*;

verus! {

/// The rows that are complete once `read` has been read: those before the
/// last unescaped row delimiter.
spec fn rows_done(read: Text) -> Document {
    split(read, RD).drop_last().map_values(|raw: Text| decode_row(raw))
}

/// The row that is being read once `read` has been read, as raw text.
spec fn row_in_progress(read: Text) -> Text {
    split(read, RD).last()
}

/// The cells of the row in progress that are complete.
spec fn cells_done(read: Text) -> Row {
    split(row_in_progress(read), FD).drop_last().map_values(|piece: Text| unescape_cell(piece))
}

/// The content read so far of the cell in progress.
spec fn cell_in_progress(read: Text) -> Text {
    unescape_cell(split(row_in_progress(read), FD).last())
}

/// Nothing has been read: no row or cell is complete, and the row and the
/// cell in progress are empty.
proof fn lemma_scan_start()
    ensures
        rows_done(Seq::empty()) == Seq::<Row>::empty(),
        cells_done(Seq::empty()) == Seq::<Text>::empty(),
        cell_in_progress(Seq::empty()) == Seq::<char>::empty(),
        row_in_progress(Seq::empty()).len() == 0,
{
    let nothing = Seq::<char>::empty();
    assert(split(nothing, RD) =~= seq![nothing]);
    assert(rows_done(nothing) =~= Seq::<Row>::empty());
    assert(cells_done(nothing) =~= Seq::<Text>::empty());
}

/// How reading one more character changes what has been read, by the
/// meaning of that character.
proof fn lemma_scan_step(read: Text, c: char)
    ensures
        match token_of(state_after(read), c) {
            Token::Content(content) => {
                &&& rows_done(read.push(c)) == rows_done(read)
                &&& cells_done(read.push(c)) == cells_done(read)
                &&& cell_in_progress(read.push(c)) == cell_in_progress(read).push(content)
                &&& row_in_progress(read.push(c)).len() > 0
            },
            Token::Marker => {
                &&& rows_done(read.push(c)) == rows_done(read)
                &&& cells_done(read.push(c)) == cells_done(read)
                &&& cell_in_progress(read.push(c)) == cell_in_progress(read)
                &&& row_in_progress(read.push(c)).len() > 0
            },
            Token::FieldBreak => {
                &&& rows_done(read.push(c)) == rows_done(read)
                &&& cells_done(read.push(c)) == cells_done(read).push(cell_in_progress(read))
                &&& cell_in_progress(read.push(c)) == Seq::<char>::empty()
                &&& row_in_progress(read.push(c)).len() > 0
            },
            Token::RowBreak => {
                &&& rows_done(read.push(c)) == rows_done(read).push(
                    cells_done(read).push(cell_in_progress(read)),
                )
                &&& cells_done(read.push(c)) == Seq::<Text>::empty()
                &&& cell_in_progress(read.push(c)) == Seq::<char>::empty()
                &&& row_in_progress(read.push(c)).len() == 0
            },
        },
{
    let longer = read.push(c);
    assert(longer.drop_last() =~= read);
    lemma_split_last(read, RD);
    let rows = split(read, RD);
    let row = rows.last();
    lemma_split_last(row, FD);
    let cells = split(row, FD);
    let cell = cells.last();
    if c == RD && state_after(read) == ScanState::Normal {
        assert(split(longer, RD) == rows.push(Seq::empty()));
        assert(rows.push(Seq::<char>::empty()).drop_last() =~= rows);
        assert(rows =~= rows.drop_last().push(row));
        assert(rows_done(longer) =~= rows_done(read).push(decode_row(row)));
        assert(cells =~= cells.drop_last().push(cell));
        assert(decode_row(row) =~= cells_done(read).push(cell_in_progress(read)));
        assert(split(Seq::<char>::empty(), FD) =~= seq![Seq::<char>::empty()]);
        assert(cells_done(longer) =~= Seq::<Text>::empty());
    } else {
        let longer_row = row.push(c);
        assert(split(longer, RD) == rows.drop_last().push(longer_row));
        assert(rows.drop_last().push(longer_row).drop_last() =~= rows.drop_last());
        assert(rows_done(longer) =~= rows_done(read));
        assert(longer_row.drop_last() =~= row);
        if c == FD && state_after(read) == ScanState::Normal {
            assert(split(longer_row, FD) == cells.push(Seq::empty()));
            assert(cells.push(Seq::<char>::empty()).drop_last() =~= cells);
            assert(cells =~= cells.drop_last().push(cell));
            assert(cells_done(longer) =~= cells_done(read).push(cell_in_progress(read)));
        } else {
            let longer_cell = cell.push(c);
            assert(split(longer_row, FD) == cells.drop_last().push(longer_cell));
            assert(cells.drop_last().push(longer_cell).drop_last() =~= cells.drop_last());
            assert(cells_done(longer) =~= cells_done(read));
            assert(longer_cell.drop_last() =~= cell);
        }
    }
}

/// The rows of a text are the complete rows and, unless it is empty, the
/// row in progress at the end of the text.
proof fn lemma_scan_end(text: Text)
    ensures
        decode_rows(text) == if row_in_progress(text).len() > 0 {
            rows_done(text).push(cells_done(text).push(cell_in_progress(text)))
        } else {
            rows_done(text)
        },
{
    lemma_split_last(text, RD);
    let rows = split(text, RD);
    let row = rows.last();
    lemma_split_last(row, FD);
    let cells = split(row, FD);
    if row.len() > 0 {
        assert(rows =~= rows.drop_last().push(row));
        assert(cells =~= cells.drop_last().push(cells.last()));
        assert(decode_row(row) =~= cells_done(text).push(cell_in_progress(text)));
        assert(decode_rows(text) =~= rows_done(text).push(decode_row(row)));
    }
}

/// The content of a raw cell: an escape marker and its code are replaced by
/// the reserved character that the code stands for, and every other
/// character is kept, also an unescaped delimiter. Fails if an escape marker
/// is followed by anything but an escape code, or by nothing.
pub fn unescape(raw: &str) -> (result: Result<String, DecodeError>)
    ensures
        match result {
            Ok(cell) => {
                &&& well_formed(raw@)
                &&& cell@ == unescape_cell(raw@)
                &&& cell@.len() <= raw@.len() <= 2 * cell@.len()
            },
            Err(e) => !well_formed(raw@) && e == DecodeError::MalformedEscape,
        },
{
    let mut cell = with_room(raw.len());
    let mut state = ScanState::Normal;
    for c in it: raw.chars()
        invariant
            it.seq() == raw@,
            escapes_valid(raw@.take(it.index())),
            state == state_after(raw@.take(it.index())),
            cell@ == unescape_cell(raw@.take(it.index())),
    {
        proof {
            assert(raw@.take(it.index() + 1).drop_last() =~= raw@.take(it.index()));
        }
        match step(state, c) {
            Ok((next, token)) => {
                state = next;
                match token {
                    Token::Content(content) => cell.push(content),
                    Token::FieldBreak => cell.push(FD),
                    Token::RowBreak => cell.push(RD),
                    Token::Marker => {},
                }
            },
            Err(e) => {
                proof {
                    if escapes_valid(raw@) {
                        lemma_escapes_valid_prefix(raw@, it.index() + 1);
                    }
                }
                return Err(e);
            },
        }
    }
    proof {
        assert(raw@.take(raw@.len() as int) =~= raw@);
        lemma_unescape_cell_length(raw@);
    }
    match state {
        ScanState::Normal => Ok(cell),
        ScanState::AfterEscape => Err(DecodeError::MalformedEscape),
    }
}

/// The document that a text stands for. The text is split into rows at the
/// unescaped row delimiters and each row into cells at the unescaped field
/// delimiters, and each cell is unescaped. The empty text has no rows, and
/// an empty piece after the last row delimiter is no row; any other piece
/// is a row of at least one cell. Fails, with no partial result, if an
/// escape marker anywhere in the text is followed by anything but an escape
/// code, or by nothing.
pub fn decode(input: &str) -> (result: Result<Vec<Vec<String>>, DecodeError>)
    ensures
        match result {
            Ok(rows) => decode_doc(input@) == Ok::<Document, DecodeError>(rows.deep_view()),
            Err(e) => decode_doc(input@) == Err::<Document, DecodeError>(e),
        },
{
    let mut rows: Vec<Vec<String>> = Vec::new();
    let mut row: Vec<String> = Vec::new();
    let mut cell = String::new();
    let mut row_started = false;
    let mut state = ScanState::Normal;
    proof {
        lemma_scan_start();
        assert(rows.deep_view() =~= Seq::<Row>::empty());
        assert(row.deep_view() =~= Seq::<Text>::empty());
    }
    for c in it: input.chars()
        invariant
            it.seq() == input@,
            escapes_valid(input@.take(it.index())),
            state == state_after(input@.take(it.index())),
            rows.deep_view() == rows_done(input@.take(it.index())),
            row.deep_view() == cells_done(input@.take(it.index())),
            cell@ == cell_in_progress(input@.take(it.index())),
            row_started == (row_in_progress(input@.take(it.index())).len() > 0),
    {
        let ghost read = input@.take(it.index());
        proof {
            assert(input@.take(it.index() + 1) =~= read.push(c));
            assert(read.push(c).drop_last() =~= read);
            lemma_scan_step(read, c);
        }
        match step(state, c) {
            Ok((next, token)) => {
                state = next;
                match token {
                    Token::Content(content) => {
                        cell.push(content);
                        row_started = true;
                    },
                    Token::Marker => {
                        row_started = true;
                    },
                    Token::FieldBreak => {
                        let ghost cells = row.deep_view();
                        row.push(cell);
                        proof {
                            assert(row.deep_view() =~= cells.push(cell@));
                        }
                        cell = String::new();
                        row_started = true;
                    },
                    Token::RowBreak => {
                        let ghost cells = row.deep_view();
                        let ghost done = rows.deep_view();
                        row.push(cell);
                        proof {
                            assert(row.deep_view() =~= cells.push(cell@));
                        }
                        rows.push(row);
                        proof {
                            assert(rows.deep_view() =~= done.push(cells.push(cell@)));
                        }
                        cell = String::new();
                        row = Vec::new();
                        proof {
                            assert(row.deep_view() =~= Seq::<Text>::empty());
                        }
                        row_started = false;
                    },
                }
            },
            Err(e) => {
                proof {
                    if escapes_valid(input@) {
                        lemma_escapes_valid_prefix(input@, it.index() + 1);
                    }
                }
                return Err(e);
            },
        }
    }
    proof {
        assert(input@.take(input@.len() as int) =~= input@);
        lemma_scan_end(input@);
    }
    match state {
        ScanState::AfterEscape => Err(DecodeError::MalformedEscape),
        ScanState::Normal => {
            if row_started {
                let ghost cells = row.deep_view();
                let ghost done = rows.deep_view();
                row.push(cell);
                proof {
                    assert(row.deep_view() =~= cells.push(cell@));
                }
                rows.push(row);
                proof {
                    assert(rows.deep_view() =~= done.push(cells.push(cell@)));
                }
            }
            Ok(rows)
        },
    }
}

} // verus!
