//! Lemmas about the model that the laws and the executable code share.

use crate::convention::{is_reserved, ESC, FD, RD};
use crate::model::{
    escape_cell, escape_char, escapes_valid, join, split, state_after, unescape_cell, ScanState,
    Text,
};
use vstd::prelude::*;

verus! {

/// Whether `symbol` does not occur in `text`.
pub open spec fn absent(symbol: char, text: Text) -> bool {
    forall|i: int| 0 <= i < text.len() ==> text[i] != symbol
}

/// A scan that has come back to the normal state reads what follows as if
/// it started there.
pub proof fn lemma_state_after_concat(a: Text, b: Text)
    requires
        state_after(a) == ScanState::Normal,
    ensures
        state_after(a + b) == state_after(b),
    decreases b.len(),
{
    if b.len() == 0 {
        assert(a + b =~= a);
    } else {
        lemma_state_after_concat(a, b.drop_last());
        assert((a + b).drop_last() =~= a + b.drop_last());
    }
}

/// The escapes of a text are valid exactly if those of its two parts are,
/// where the first part leaves the scan in the normal state.
pub proof fn lemma_escapes_valid_concat(a: Text, b: Text)
    requires
        state_after(a) == ScanState::Normal,
    ensures
        escapes_valid(a + b) == (escapes_valid(a) && escapes_valid(b)),
    decreases b.len(),
{
    if b.len() == 0 {
        assert(a + b =~= a);
    } else {
        lemma_escapes_valid_concat(a, b.drop_last());
        lemma_state_after_concat(a, b.drop_last());
        assert((a + b).drop_last() =~= a + b.drop_last());
    }
}

/// A text whose escapes are valid has no prefix with an invalid escape.
pub proof fn lemma_escapes_valid_prefix(text: Text, n: int)
    requires
        0 <= n <= text.len(),
        escapes_valid(text),
    ensures
        escapes_valid(text.take(n)),
    decreases text.len(),
{
    if n == text.len() {
        assert(text.take(n) =~= text);
    } else {
        lemma_escapes_valid_prefix(text.drop_last(), n);
        assert(text.drop_last().take(n) =~= text.take(n));
    }
}

/// Splitting yields at least one piece.
pub proof fn lemma_split_nonempty(text: Text, delimiter: char)
    ensures
        split(text, delimiter).len() >= 1,
    decreases text.len(),
{
    if text.len() > 0 {
        lemma_split_nonempty(text.drop_last(), delimiter);
    }
}

/// Splitting yields at least one piece, and the last piece leaves the scan
/// in the state in which the whole text leaves it.
pub proof fn lemma_split_last(text: Text, delimiter: char)
    requires
        delimiter != ESC,
    ensures
        split(text, delimiter).len() >= 1,
        state_after(split(text, delimiter).last()) == state_after(text),
    decreases text.len(),
{
    if text.len() > 0 {
        lemma_split_last(text.drop_last(), delimiter);
        let before = split(text.drop_last(), delimiter);
        if !(text.last() == delimiter && state_after(text.drop_last()) == ScanState::Normal) {
            assert(before.last().push(text.last()).drop_last() =~= before.last());
        }
    }
}

/// Text without the delimiter, appended to any text, only extends the last
/// piece.
pub proof fn lemma_split_append(a: Text, b: Text, delimiter: char)
    requires
        delimiter != ESC,
        absent(delimiter, b),
    ensures
        split(a + b, delimiter) == split(a, delimiter).drop_last().push(
            split(a, delimiter).last() + b,
        ),
    decreases b.len(),
{
    lemma_split_last(a, delimiter);
    let pieces = split(a, delimiter);
    if b.len() == 0 {
        assert(a + b =~= a);
        assert(pieces.last() + b =~= pieces.last());
        assert(pieces.drop_last().push(pieces.last()) =~= pieces);
    } else {
        let shorter = b.drop_last();
        lemma_split_append(a, shorter, delimiter);
        assert((a + b).drop_last() =~= a + shorter);
        assert((a + b).last() == b.last());
        let before = split(a + shorter, delimiter);
        assert(before.drop_last() =~= pieces.drop_last());
        assert(before.last().push(b.last()) =~= pieces.last() + b);
    }
}

/// Text without the delimiter is a single piece.
pub proof fn lemma_split_single(text: Text, delimiter: char)
    requires
        delimiter != ESC,
        absent(delimiter, text),
    ensures
        split(text, delimiter) == seq![text],
{
    let nothing = Seq::<char>::empty();
    lemma_split_append(nothing, text, delimiter);
    assert(nothing + text =~= text);
    assert(split(nothing, delimiter).drop_last().push(nothing + text) =~= seq![text]);
}

/// An escaped cell is well formed, holds no delimiter, is at least as long
/// as the cell and at most twice as long, and unescapes to the cell.
pub proof fn lemma_escape_cell(cell: Text)
    ensures
        state_after(escape_cell(cell)) == ScanState::Normal,
        escapes_valid(escape_cell(cell)),
        absent(FD, escape_cell(cell)),
        absent(RD, escape_cell(cell)),
        unescape_cell(escape_cell(cell)) == cell,
        cell.len() <= escape_cell(cell).len() <= 2 * cell.len(),
    decreases cell.len(),
{
    if cell.len() > 0 {
        let c = cell.last();
        let before = escape_cell(cell.drop_last());
        let whole = escape_cell(cell);
        lemma_escape_cell(cell.drop_last());
        if is_reserved(c) {
            let marked = before.push(ESC);
            assert(whole =~= marked.push(escape_char(c)[1]));
            assert(marked.drop_last() =~= before);
            assert(whole.drop_last() =~= marked);
            assert(escapes_valid(marked));
            assert(state_after(marked) == ScanState::AfterEscape);
            assert(unescape_cell(marked) == unescape_cell(before));
        } else {
            assert(whole =~= before.push(c));
            assert(whole.drop_last() =~= before);
        }
        assert(unescape_cell(whole) =~= cell.drop_last().push(c));
        assert(cell.drop_last().push(c) =~= cell);
    }
}

/// Unescaping never lengthens a raw cell, and shortens it to no less than
/// half, not counting an escape marker at its end that waits for a code.
pub proof fn lemma_unescape_cell_length(raw: Text)
    ensures
        unescape_cell(raw).len() <= raw.len(),
        state_after(raw) == ScanState::Normal ==> raw.len() <= 2 * unescape_cell(raw).len(),
        state_after(raw) == ScanState::AfterEscape ==> raw.len() <= 2 * unescape_cell(raw).len()
            + 1,
    decreases raw.len(),
{
    if raw.len() > 0 {
        lemma_unescape_cell_length(raw.drop_last());
    }
}

/// Pieces that each leave the scan in the normal state and hold valid
/// escapes join to a text of the same kind.
pub proof fn lemma_join_well_formed(pieces: Seq<Text>, delimiter: char)
    requires
        delimiter != ESC,
        forall|i: int|
            0 <= i < pieces.len() ==> state_after(#[trigger] pieces[i]) == ScanState::Normal
                && escapes_valid(pieces[i]),
    ensures
        state_after(join(pieces, delimiter)) == ScanState::Normal,
        escapes_valid(join(pieces, delimiter)),
    decreases pieces.len(),
{
    if pieces.len() >= 2 {
        let front = join(pieces.drop_last(), delimiter);
        lemma_join_well_formed(pieces.drop_last(), delimiter);
        let opened = front.push(delimiter);
        assert(opened.drop_last() =~= front);
        lemma_state_after_concat(opened, pieces.last());
        lemma_escapes_valid_concat(opened, pieces.last());
    }
}

/// A symbol that is in no piece and is not the delimiter is not in the
/// joined text.
pub proof fn lemma_join_absent(pieces: Seq<Text>, delimiter: char, symbol: char)
    requires
        symbol != delimiter,
        forall|i: int| 0 <= i < pieces.len() ==> absent(symbol, #[trigger] pieces[i]),
    ensures
        absent(symbol, join(pieces, delimiter)),
    decreases pieces.len(),
{
    if pieces.len() >= 2 {
        lemma_join_absent(pieces.drop_last(), delimiter, symbol);
    }
}

/// Joining and then splitting gives the pieces back, where there is at
/// least one piece and each is well formed and free of the delimiter.
pub proof fn lemma_split_join(pieces: Seq<Text>, delimiter: char)
    requires
        delimiter != ESC,
        pieces.len() >= 1,
        forall|i: int|
            0 <= i < pieces.len() ==> state_after(#[trigger] pieces[i]) == ScanState::Normal
                && escapes_valid(pieces[i]) && absent(delimiter, pieces[i]),
    ensures
        split(join(pieces, delimiter), delimiter) == pieces,
    decreases pieces.len(),
{
    if pieces.len() == 1 {
        lemma_split_single(pieces[0], delimiter);
        assert(seq![pieces[0]] =~= pieces);
    } else {
        let front = join(pieces.drop_last(), delimiter);
        lemma_split_join(pieces.drop_last(), delimiter);
        lemma_join_well_formed(pieces.drop_last(), delimiter);
        let opened = front.push(delimiter);
        assert(opened.drop_last() =~= front);
        assert(split(opened, delimiter) == pieces.drop_last().push(Seq::empty()));
        lemma_split_append(opened, pieces.last(), delimiter);
        assert(Seq::<char>::empty() + pieces.last() =~= pieces.last());
        assert(pieces.drop_last().push(Seq::empty()).drop_last() =~= pieces.drop_last());
        assert(pieces.drop_last().push(pieces.last()) =~= pieces);
    }
}

/// The joined text is empty exactly if there is no piece, or one empty
/// piece.
pub proof fn lemma_join_empty(pieces: Seq<Text>, delimiter: char)
    ensures
        join(pieces, delimiter).len() == 0 <==> pieces.len() == 0 || (pieces.len() == 1
            && pieces[0].len() == 0),
{
}

} // verus!
