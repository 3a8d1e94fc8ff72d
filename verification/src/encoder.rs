//! The encoder: from cells, rows and documents to text.

use crate::convention::{code_for, ESC, FD, RD};
use crate::lemmas::lemma_escape_cell;
use crate::model::{encode_doc, encode_row, escape_cell, join, Document, Row, Text};
use crate::strings::with_room;
use vstd::prelude::*;
use vstd::utf8::encode_utf8;

verus! {

/// Joining one more piece appends it, after a delimiter unless it is the
/// first piece.
proof fn lemma_join_push(pieces: Seq<Text>, piece: Text, delimiter: char)
    ensures
        join(pieces.push(piece), delimiter) == if pieces.len() == 0 {
            piece
        } else {
            join(pieces, delimiter).push(delimiter) + piece
        },
{
    assert(pieces.push(piece).drop_last() =~= pieces);
}

/// The bytes of a cell in UTF-8, as `str::len` counts them.
spec fn cell_bytes(cell: Text) -> nat {
    (encode_utf8(cell).len() as usize) as nat
}

/// The bytes of the cells of a row, and one more for each cell.
spec fn row_bytes(row: Row) -> nat
    decreases row.len(),
{
    if row.len() == 0 {
        0
    } else {
        row_bytes(row.drop_last()) + cell_bytes(row.last()) + 1
    }
}

/// The bytes of the cells of a document, and one more for each cell.
spec fn doc_bytes(doc: Document) -> nat
    decreases doc.len(),
{
    if doc.len() == 0 {
        0
    } else {
        doc_bytes(doc.drop_last()) + row_bytes(doc.last())
    }
}

/// `n`, or the largest `usize` where `n` is larger.
spec fn capped(n: nat) -> usize {
    if n > usize::MAX {
        usize::MAX
    } else {
        n as usize
    }
}

/// The room to reserve for the text of `rows`: the bytes of its cells and
/// one more for each cell, for the delimiter that follows it. The count
/// stops at the largest `usize`.
fn size_hint(rows: &[Vec<String>]) -> (bytes: usize)
    ensures
        bytes == capped(doc_bytes(rows.deep_view())),
{
    let ghost doc = rows.deep_view();
    let mut bytes: usize = 0;
    let mut i: usize = 0;
    while i < rows.len()
        invariant
            i <= rows.len(),
            doc == rows.deep_view(),
            bytes == capped(doc_bytes(doc.take(i as int))),
        decreases rows.len() - i,
    {
        let cells = rows[i].as_slice();
        let ghost row = doc[i as int];
        let ghost before = doc_bytes(doc.take(i as int));
        let mut j: usize = 0;
        while j < cells.len()
            invariant
                j <= cells.len(),
                row == cells.deep_view(),
                bytes == capped(before + row_bytes(row.take(j as int))),
            decreases cells.len() - j,
        {
            proof {
                assert(row.take(j + 1).drop_last() =~= row.take(j as int));
            }
            bytes = bytes.saturating_add(cells[j].as_str().len()).saturating_add(1);
            j += 1;
        }
        proof {
            assert(row.take(cells.len() as int) =~= row);
            assert(doc.take(i + 1).drop_last() =~= doc.take(i as int));
        }
        i += 1;
    }
    proof {
        assert(doc.take(rows.len() as int) =~= doc);
    }
    bytes
}

/// Appends the escaped form of `cell` to `out`.
fn escape_onto(out: &mut String, cell: &str)
    ensures
        final(out)@ == old(out)@ + escape_cell(cell@),
{
    for c in it: cell.chars()
        invariant
            it.seq() == cell@,
            out@ == old(out)@ + escape_cell(cell@.take(it.index())),
    {
        proof {
            assert(cell@.take(it.index() + 1).drop_last() =~= cell@.take(it.index()));
        }
        match code_for(c) {
            Some(code) => {
                out.push(ESC);
                out.push(code);
            },
            None => {
                out.push(c);
            },
        }
    }
    proof {
        assert(cell@.take(cell@.len() as int) =~= cell@);
    }
}

/// Appends the text of the row `cells` to `out`.
fn encode_row_onto(out: &mut String, cells: &[String])
    ensures
        final(out)@ == old(out)@ + encode_row(cells.deep_view()),
{
    let ghost row = cells.deep_view();
    let mut i: usize = 0;
    while i < cells.len()
        invariant
            i <= cells.len(),
            row == cells.deep_view(),
            out@ == old(out)@ + encode_row(row.take(i as int)),
        decreases cells.len() - i,
    {
        proof {
            let done = row.take(i as int).map_values(|cell: Text| escape_cell(cell));
            lemma_join_push(done, escape_cell(row[i as int]), FD);
            assert(row.take(i + 1).map_values(|cell: Text| escape_cell(cell)) =~= done.push(
                escape_cell(row[i as int]),
            ));
        }
        if i > 0 {
            out.push(FD);
        }
        escape_onto(out, cells[i].as_str());
        i += 1;
    }
    proof {
        assert(row.take(cells.len() as int) =~= row);
    }
}

/// The escaped form of a cell: each reserved character is replaced by the
/// escape marker and its code, and every other character is kept.
pub fn escape(cell: &str) -> (out: String)
    ensures
        out@ == escape_cell(cell@),
        cell@.len() <= out@.len() <= 2 * cell@.len(),
{
    let mut out = with_room(cell.len());
    escape_onto(&mut out, cell);
    proof {
        lemma_escape_cell(cell@);
    }
    out
}

/// The text of a document: the cells of each row escaped and joined by the
/// field delimiter, and the rows joined by the row delimiter. Every
/// document has a text; a document without rows has the empty text.
pub fn encode(rows: &[Vec<String>]) -> (text: String)
    ensures
        text@ == encode_doc(rows.deep_view()),
{
    let ghost doc = rows.deep_view();
    let mut text = with_room(size_hint(rows));
    let mut i: usize = 0;
    while i < rows.len()
        invariant
            i <= rows.len(),
            doc == rows.deep_view(),
            text@ == encode_doc(doc.take(i as int)),
        decreases rows.len() - i,
    {
        proof {
            let done = doc.take(i as int).map_values(|row: Row| encode_row(row));
            lemma_join_push(done, encode_row(doc[i as int]), RD);
            assert(doc.take(i + 1).map_values(|row: Row| encode_row(row)) =~= done.push(
                encode_row(doc[i as int]),
            ));
        }
        if i > 0 {
            text.push(RD);
        }
        encode_row_onto(&mut text, rows[i].as_slice());
        i += 1;
    }
    proof {
        assert(doc.take(rows.len() as int) =~= doc);
    }
    text
}

} // verus!
