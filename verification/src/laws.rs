//! What holds between encoding and decoding.
//!
//! Encoding loses one distinction: a row without cells and a row of one
//! empty cell are both written as the empty text, and an empty text at the
//! end of a document is not read as a row. Everything else is kept. The
//! laws below say so exactly.

use crate::convention::{ESC, FD, RD};
use crate::error::DecodeError;
use crate::lemmas::{
    absent, lemma_escape_cell, lemma_join_absent, lemma_join_empty, lemma_join_well_formed,
    lemma_split_join, lemma_split_nonempty,
};
use crate::model::{
    decode_doc, decode_row, decode_rows, encode_doc, encode_row, escape_cell, escapes_valid,
    join, split, state_after, unescape_cell, well_formed, Document, Row, ScanState, Text,
};
use vstd::prelude::*;

verus! {

/// Whether a row is written as the empty text: it has no cell, or a single
/// empty cell.
pub open spec fn is_blank(row: Row) -> bool {
    row.len() == 0 || (row.len() == 1 && row[0].len() == 0)
}

/// The row as it is read back: a row without cells comes back as a row of
/// one empty cell, any other row as itself.
pub open spec fn canonical_row(row: Row) -> Row {
    if row.len() == 0 {
        seq![Seq::empty()]
    } else {
        row
    }
}

/// The document as it is read back: without its last row where that row is
/// blank, and with each remaining row as it is read back.
pub open spec fn canonical(doc: Document) -> Document {
    let kept = if doc.len() > 0 && is_blank(doc.last()) {
        doc.drop_last()
    } else {
        doc
    };
    kept.map_values(|row: Row| canonical_row(row))
}

/// Whether a document is read back unchanged: every row has at least one
/// cell, and the last row is not blank.
pub open spec fn faithful(doc: Document) -> bool {
    &&& forall|i: int| 0 <= i < doc.len() ==> (#[trigger] doc[i]).len() >= 1
    &&& doc.len() > 0 ==> !is_blank(doc.last())
}

/// Splitting loses nothing: the pieces of a text, joined by the delimiter
/// at which it was split, are the text.
pub proof fn lemma_join_split(text: Text, delimiter: char)
    ensures
        join(split(text, delimiter), delimiter) == text,
    decreases text.len(),
{
    if text.len() == 0 {
        assert(split(text, delimiter)[0] =~= text);
    } else {
        let shorter = text.drop_last();
        let before = split(shorter, delimiter);
        lemma_join_split(shorter, delimiter);
        lemma_split_nonempty(shorter, delimiter);
        assert(shorter.push(text.last()) =~= text);
        if text.last() == delimiter && state_after(shorter) == ScanState::Normal {
            let pieces = before.push(Seq::empty());
            assert(pieces.drop_last() =~= before);
            assert(join(pieces, delimiter) =~= shorter.push(delimiter));
        } else {
            let grown = before.last().push(text.last());
            let pieces = before.drop_last().push(grown);
            assert(pieces.drop_last() =~= before.drop_last());
            if before.len() >= 2 {
                assert(join(pieces, delimiter) =~= join(before, delimiter).push(text.last()));
            }
        }
    }
}

/// The text of a row is well formed and holds no row delimiter; it is empty
/// exactly if the row is blank; and it decodes to the row as it is read
/// back.
pub proof fn lemma_encode_row(row: Row)
    ensures
        well_formed(encode_row(row)),
        absent(RD, encode_row(row)),
        encode_row(row).len() == 0 <==> is_blank(row),
        decode_row(encode_row(row)) == canonical_row(row),
{
    let cells = row.map_values(|cell: Text| escape_cell(cell));
    assert forall|i: int| 0 <= i < cells.len() implies state_after(#[trigger] cells[i])
        == ScanState::Normal && escapes_valid(cells[i]) && absent(FD, cells[i]) && absent(
        RD,
        cells[i],
    ) && unescape_cell(cells[i]) == row[i] && (cells[i].len() == 0 <==> row[i].len() == 0) by {
        lemma_escape_cell(row[i]);
    }
    lemma_join_well_formed(cells, FD);
    lemma_join_absent(cells, FD, RD);
    lemma_join_empty(cells, FD);
    if row.len() >= 1 {
        lemma_split_join(cells, FD);
        assert(decode_row(encode_row(row)) =~= row);
    } else {
        assert(decode_row(encode_row(row)) =~= seq![Seq::<char>::empty()]);
    }
}

/// A row and the row as it is read back have the same text.
pub proof fn lemma_encode_canonical_row(row: Row)
    ensures
        encode_row(canonical_row(row)) == encode_row(row),
{
    if row.len() == 0 {
        let cells = canonical_row(row).map_values(|cell: Text| escape_cell(cell));
        assert(cells[0] =~= Seq::<char>::empty());
    }
}

/// Decoding the text of any document succeeds and yields the document as it
/// is read back.
pub proof fn lemma_decode_encode(doc: Document)
    ensures
        decode_doc(encode_doc(doc)) == Ok::<Document, DecodeError>(canonical(doc)),
{
    let texts = doc.map_values(|row: Row| encode_row(row));
    assert forall|i: int| 0 <= i < texts.len() implies state_after(#[trigger] texts[i])
        == ScanState::Normal && escapes_valid(texts[i]) && absent(RD, texts[i]) && decode_row(
        texts[i],
    ) == canonical_row(doc[i]) && (texts[i].len() == 0 <==> is_blank(doc[i])) by {
        lemma_encode_row(doc[i]);
    }
    lemma_join_well_formed(texts, RD);
    if doc.len() >= 1 {
        lemma_split_join(texts, RD);
    }
    assert(decode_rows(encode_doc(doc)) =~= canonical(doc));
}

/// Round trip: a document in which every row has a cell, and whose last row
/// is not blank, is decoded from its text exactly as it was.
pub proof fn lemma_round_trip(doc: Document)
    requires
        faithful(doc),
    ensures
        decode_doc(encode_doc(doc)) == Ok::<Document, DecodeError>(doc),
{
    lemma_decode_encode(doc);
    assert(canonical(doc) =~= doc);
}

/// No other document is decoded from its text as it was: one that comes
/// back unchanged has a cell in every row and no blank last row.
pub proof fn lemma_round_trip_only_if_faithful(doc: Document)
    requires
        decode_doc(encode_doc(doc)) == Ok::<Document, DecodeError>(doc),
    ensures
        faithful(doc),
{
    lemma_decode_encode(doc);
    assert(canonical(doc) == doc);
    if doc.len() > 0 && is_blank(doc.last()) {
        assert(canonical(doc).len() == doc.len() - 1);
    }
    assert forall|i: int| 0 <= i < doc.len() implies (#[trigger] doc[i]).len() >= 1 by {
        assert(canonical(doc)[i] == canonical_row(doc[i]));
    }
}

/// Encoding what was decoded from a document's text gives that text again,
/// unless the document has two or more rows and a blank last one.
pub proof fn lemma_encode_decode_encode(doc: Document)
    requires
        doc.len() >= 2 ==> !is_blank(doc.last()),
    ensures
        decode_doc(encode_doc(doc)) matches Ok(back) && encode_doc(back) == encode_doc(doc),
{
    lemma_decode_encode(doc);
    let back = canonical(doc);
    if doc.len() > 0 && is_blank(doc.last()) {
        lemma_encode_row(doc[0]);
        assert(back =~= Seq::<Row>::empty());
    } else {
        let texts = doc.map_values(|row: Row| encode_row(row));
        let texts_back = back.map_values(|row: Row| encode_row(row));
        assert forall|i: int| 0 <= i < texts.len() implies texts_back[i] == texts[i] by {
            lemma_encode_canonical_row(doc[i]);
        }
        assert(texts_back =~= texts);
    }
}

/// In the excluded case the text is not reproduced: a document of two or
/// more rows with a blank last one is read back without that row, and
/// encoding the result gives the text without its final row delimiter.
pub proof fn lemma_blank_last_row_is_dropped(doc: Document)
    requires
        doc.len() >= 2,
        is_blank(doc.last()),
    ensures
        decode_doc(encode_doc(doc)) matches Ok(back) && encode_doc(back).push(RD) == encode_doc(
            doc,
        ),
{
    lemma_decode_encode(doc);
    lemma_encode_row(doc.last());
    let shorter = doc.drop_last();
    assert(canonical(doc) == shorter.map_values(|row: Row| canonical_row(row)));
    let texts = doc.map_values(|row: Row| encode_row(row));
    let texts_shorter = shorter.map_values(|row: Row| encode_row(row));
    let texts_back = canonical(doc).map_values(|row: Row| encode_row(row));
    assert forall|i: int| 0 <= i < texts_shorter.len() implies texts_back[i]
        == texts_shorter[i] by {
        lemma_encode_canonical_row(shorter[i]);
    }
    assert(texts_back =~= texts_shorter);
    assert(texts.drop_last() =~= texts_shorter);
    assert(encode_doc(doc) =~= join(texts_shorter, RD).push(RD));
}

/// A text that ends with the escape marker is malformed, whatever comes
/// before the marker: either the marker waits for a code that never comes,
/// or it stands itself in the place of a code and is none.
pub proof fn lemma_final_escape_marker_is_malformed(text: Text)
    requires
        text.len() > 0,
        text.last() == ESC,
    ensures
        decode_doc(text) == Err::<Document, DecodeError>(DecodeError::MalformedEscape),
{
}

/// The empty document and the document of one blank row are both written as
/// the empty text, and the empty text is read as the empty document.
pub proof fn lemma_empty_text()
    ensures
        encode_doc(Seq::empty()) == Seq::<char>::empty(),
        encode_doc(seq![Seq::empty()]) == Seq::<char>::empty(),
        decode_doc(Seq::empty()) == Ok::<Document, DecodeError>(Seq::empty()),
{
    let no_rows = Seq::<Row>::empty();
    let one_row = seq![Seq::<Text>::empty()];
    lemma_decode_encode(no_rows);
    lemma_encode_row(one_row[0]);
    assert(canonical(no_rows) =~= no_rows);
}

} // verus!
