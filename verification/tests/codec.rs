use nsv_codec::convention::{CODE_ESC, CODE_FD, CODE_RD, CONVENTION_VERSION, ESC, FD, RD};
use nsv_codec::{decode, encode, escape, unescape, DecodeError};

fn doc(rows: &[&[&str]]) -> Vec<Vec<String>> {
    rows.iter()
        .map(|row| row.iter().map(|cell| cell.to_string()).collect())
        .collect()
}

fn text(parts: &[&str]) -> String {
    parts.concat()
}

fn fd() -> String {
    FD.to_string()
}

fn rd() -> String {
    RD.to_string()
}

fn esc() -> String {
    ESC.to_string()
}

#[test]
fn reserved_characters_and_codes_are_distinct() {
    let all = [FD, RD, ESC, CODE_FD, CODE_RD, CODE_ESC];
    for i in 0..all.len() {
        for j in 0..all.len() {
            if i != j {
                assert_ne!(all[i], all[j]);
            }
        }
    }
    assert_ne!(RD, '\n');
    assert_ne!(FD, '\n');
}

#[test]
fn convention_has_its_fixed_values() {
    assert_eq!(CONVENTION_VERSION, 1);
    assert_eq!(FD, '\u{1f}');
    assert_eq!(RD, '\u{1e}');
    assert_eq!(ESC, '\u{1b}');
    assert_eq!((CODE_FD, CODE_RD, CODE_ESC), ('f', 'r', 'e'));
}

#[test]
fn empty_text_decodes_to_no_rows() {
    assert_eq!(decode(""), Ok(Vec::<Vec<String>>::new()));
}

#[test]
fn no_rows_encode_to_empty_text() {
    assert_eq!(encode(&[]), "");
}

#[test]
fn one_row_without_cells_encodes_to_empty_text() {
    assert_eq!(encode(&[vec![]]), "");
    assert_eq!(encode(&doc(&[&[]])), encode(&doc(&[])));
}

#[test]
fn one_row_of_one_empty_cell_encodes_to_empty_text() {
    assert_eq!(encode(&doc(&[&[""]])), "");
}

#[test]
fn single_cell_encodes_to_itself() {
    assert_eq!(encode(&doc(&[&["hello"]])), "hello");
}

#[test]
fn single_cell_decodes_to_one_row_of_one_cell() {
    assert_eq!(decode("hello"), Ok(doc(&[&["hello"]])));
}

#[test]
fn field_delimiter_cell_round_trips() {
    let document = vec![vec![fd()]];
    let encoded = encode(&document);
    assert_eq!(encoded, text(&[&esc(), "f"]));
    assert_eq!(decode(&encoded), Ok(document));
}

#[test]
fn row_delimiter_cell_round_trips() {
    let document = vec![vec![rd()]];
    let encoded = encode(&document);
    assert_eq!(encoded, text(&[&esc(), "r"]));
    assert_eq!(decode(&encoded), Ok(document));
}

#[test]
fn escape_marker_cell_round_trips() {
    let document = vec![vec![esc()]];
    let encoded = encode(&document);
    assert_eq!(encoded, text(&[&esc(), "e"]));
    assert_eq!(decode(&encoded), Ok(document));
}

#[test]
fn multi_row_multi_cell_encodes_with_delimiters_between() {
    let document = doc(&[&["a", "b"], &["c"]]);
    assert_eq!(encode(&document), text(&["a", &fd(), "b", &rd(), "c"]));
}

#[test]
fn multi_row_multi_cell_round_trips() {
    let document = doc(&[&["a", "b"], &["c"]]);
    assert_eq!(decode(&encode(&document)), Ok(document));
}

#[test]
fn lone_escape_marker_at_end_is_malformed() {
    assert_eq!(decode(&text(&["abc", &esc()])), Err(DecodeError::MalformedEscape));
    assert_eq!(decode(&esc()), Err(DecodeError::MalformedEscape));
}

#[test]
fn escape_marker_before_a_non_code_is_malformed() {
    assert_eq!(decode(&text(&[&esc(), "x"])), Err(DecodeError::MalformedEscape));
    assert_eq!(decode(&text(&["a", &esc(), &fd(), "b"])), Err(DecodeError::MalformedEscape));
    assert_eq!(decode(&text(&["a", &esc(), &rd(), "b"])), Err(DecodeError::MalformedEscape));
    assert_eq!(decode(&text(&[&esc(), &esc()])), Err(DecodeError::MalformedEscape));
}

#[test]
fn malformed_escape_late_in_the_text_fails_the_whole_call() {
    let input = text(&["a", &fd(), "b", &rd(), "c", &fd(), &esc(), "q", &rd(), "d"]);
    assert_eq!(decode(&input), Err(DecodeError::MalformedEscape));
}

#[test]
fn round_trip_with_reserved_and_unprintable_content() {
    let mixed = text(&["x", &fd(), "y", &rd(), "z", &esc(), "f", &esc()]);
    let document = vec![
        vec!["plain".to_string(), "".to_string(), mixed],
        vec!["line\nbreak\r\n".to_string(), "tab\there".to_string()],
        vec!["".to_string(), "".to_string()],
        vec!["\u{0}\u{7f}".to_string(), "h\u{e9}llo \u{4e16}\u{754c} \u{1f600}".to_string()],
        vec!["f".to_string(), "r".to_string(), "e".to_string()],
    ];
    assert_eq!(decode(&encode(&document)), Ok(document));
}

#[test]
fn newline_is_an_ordinary_character() {
    let document = doc(&[&["a\nb", "\n"], &["\n\n"]]);
    let encoded = encode(&document);
    assert_eq!(encoded, text(&["a\nb", &fd(), "\n", &rd(), "\n\n"]));
    assert_eq!(decode(&encoded), Ok(document));
}

#[test]
fn encode_decode_encode_reproduces_the_text() {
    let documents = vec![
        doc(&[]),
        doc(&[&[]]),
        doc(&[&[""]]),
        doc(&[&["a"]]),
        doc(&[&[], &["a"]]),
        doc(&[&["a"], &[], &["b", ""]]),
        vec![vec![fd(), rd()], vec![esc()]],
    ];
    for document in documents {
        let encoded = encode(&document);
        let back = decode(&encoded).unwrap();
        assert_eq!(encode(&back), encoded);
    }
}

#[test]
fn blank_last_row_after_another_row_is_not_read_back() {
    let document = doc(&[&["a"], &[]]);
    let encoded = encode(&document);
    assert_eq!(encoded, text(&["a", &rd()]));
    let back = decode(&encoded).unwrap();
    assert_eq!(back, doc(&[&["a"]]));
    assert_eq!(encode(&back), "a");
}

#[test]
fn trailing_row_delimiter_starts_no_row() {
    assert_eq!(decode(&text(&["a", &rd()])), Ok(doc(&[&["a"]])));
    assert_eq!(decode(&text(&["a", &fd(), "b", &rd(), "c", &rd()])), Ok(doc(&[&["a", "b"], &["c"]])));
}

#[test]
fn only_one_trailing_empty_piece_is_dropped() {
    assert_eq!(decode(&text(&["a", &rd(), &rd()])), Ok(doc(&[&["a"], &[""]])));
    assert_eq!(decode(&rd()), Ok(doc(&[&[""]])));
    assert_eq!(decode(&text(&[&rd(), &rd()])), Ok(doc(&[&[""], &[""]])));
}

#[test]
fn empty_piece_between_row_delimiters_is_a_row_of_one_empty_cell() {
    assert_eq!(decode(&text(&["a", &rd(), &rd(), "b"])), Ok(doc(&[&["a"], &[""], &["b"]])));
    assert_eq!(decode(&text(&[&rd(), "b"])), Ok(doc(&[&[""], &["b"]])));
}

#[test]
fn empty_cells_are_kept() {
    assert_eq!(decode(&fd()), Ok(doc(&[&["", ""]])));
    assert_eq!(decode(&text(&[&fd(), &fd()])), Ok(doc(&[&["", "", ""]])));
    assert_eq!(decode(&text(&["a", &fd()])), Ok(doc(&[&["a", ""]])));
    assert_eq!(decode(&text(&[&fd(), "a"])), Ok(doc(&[&["", "a"]])));
    assert_eq!(encode(&doc(&[&["", ""]])), fd());
    assert_eq!(encode(&doc(&[&["", "", ""]])), text(&[&fd(), &fd()]));
}

#[test]
fn row_without_cells_in_the_middle_comes_back_as_one_empty_cell() {
    let document = doc(&[&["a"], &[], &["b"]]);
    let encoded = encode(&document);
    assert_eq!(encoded, text(&["a", &rd(), &rd(), "b"]));
    assert_eq!(decode(&encoded), Ok(doc(&[&["a"], &[""], &["b"]])));
}

#[test]
fn escaped_delimiters_separate_nothing() {
    let input = text(&["a", &esc(), "f", "b", &fd(), "c", &esc(), "r", "d", &rd(), &esc(), "e"]);
    let expected = vec![
        vec![text(&["a", &fd(), "b"]), text(&["c", &rd(), "d"])],
        vec![esc()],
    ];
    assert_eq!(decode(&input), Ok(expected));
}

#[test]
fn escaped_escape_marker_does_not_escape_what_follows() {
    let input = text(&[&esc(), "e", &fd(), "x"]);
    assert_eq!(decode(&input), Ok(vec![vec![esc(), "x".to_string()]]));
    let input = text(&[&esc(), "e", &rd(), "x"]);
    assert_eq!(decode(&input), Ok(vec![vec![esc()], vec!["x".to_string()]]));
    let input = text(&[&esc(), "e", "f"]);
    assert_eq!(decode(&input), Ok(vec![vec![text(&[&esc(), "f"])]]));
}

#[test]
fn escape_replaces_each_reserved_character() {
    assert_eq!(escape(""), "");
    assert_eq!(escape("plain text"), "plain text");
    assert_eq!(escape("fre"), "fre");
    let cell = text(&["a", &fd(), &rd(), "b", &esc(), &esc()]);
    let expected = text(&["a", &esc(), "f", &esc(), "r", "b", &esc(), "e", &esc(), "e"]);
    assert_eq!(escape(&cell), expected);
}

#[test]
fn escape_at_most_doubles_the_length() {
    let cell = text(&[&fd(), &rd(), &esc()]);
    assert_eq!(escape(&cell).chars().count(), 6);
    assert_eq!(escape("abc").chars().count(), 3);
}

#[test]
fn unescape_at_most_halves_the_length() {
    let raw = text(&[&esc(), "f", &esc(), "r", &esc(), "e"]);
    assert_eq!(unescape(&raw).unwrap().chars().count(), 3);
    assert_eq!(unescape("abc").unwrap().chars().count(), 3);
}

#[test]
fn text_ending_in_the_escape_marker_is_malformed_whatever_precedes() {
    for prefix in ["", "a", "ab
", "e", "f"] {
        assert_eq!(decode(&text(&[prefix, &esc()])), Err(DecodeError::MalformedEscape));
        assert_eq!(unescape(&text(&[prefix, &esc()])), Err(DecodeError::MalformedEscape));
    }
    let escaped_then_marker = text(&[&esc(), "e", &esc()]);
    assert_eq!(decode(&escaped_then_marker), Err(DecodeError::MalformedEscape));
    let marker_then_marker = text(&["a", &fd(), &esc(), &esc()]);
    assert_eq!(decode(&marker_then_marker), Err(DecodeError::MalformedEscape));
}

#[test]
fn unescape_inverts_escape() {
    let cells = vec![
        String::new(),
        "plain".to_string(),
        text(&[&fd(), &rd(), &esc()]),
        text(&["e", &esc(), "f", &esc(), "r"]),
        "\u{1f600}\n".to_string(),
    ];
    for cell in cells {
        assert_eq!(unescape(&escape(&cell)), Ok(cell));
    }
}

#[test]
fn unescape_reads_each_code() {
    assert_eq!(unescape(&text(&[&esc(), "f"])), Ok(fd()));
    assert_eq!(unescape(&text(&[&esc(), "r"])), Ok(rd()));
    assert_eq!(unescape(&text(&[&esc(), "e"])), Ok(esc()));
    assert_eq!(unescape(&text(&["a", &esc(), "e", "e"])), Ok(text(&["a", &esc(), "e"])));
}

#[test]
fn unescape_keeps_unescaped_delimiters() {
    assert_eq!(unescape(&text(&["a", &fd(), "b", &rd()])), Ok(text(&["a", &fd(), "b", &rd()])));
}

#[test]
fn unescape_rejects_malformed_escapes() {
    assert_eq!(unescape(&esc()), Err(DecodeError::MalformedEscape));
    assert_eq!(unescape(&text(&["ab", &esc()])), Err(DecodeError::MalformedEscape));
    assert_eq!(unescape(&text(&[&esc(), "F"])), Err(DecodeError::MalformedEscape));
    assert_eq!(unescape(&text(&[&esc(), &esc(), "e"])), Err(DecodeError::MalformedEscape));
}

#[test]
fn encoded_text_holds_delimiters_only_between_cells_and_rows() {
    let document = vec![vec![fd(), rd()], vec![text(&[&rd(), &fd(), &esc()])]];
    let encoded = encode(&document);
    assert_eq!(encoded.chars().filter(|c| *c == FD).count(), 1);
    assert_eq!(encoded.chars().filter(|c| *c == RD).count(), 1);
}

#[test]
fn large_document_round_trips() {
    let document: Vec<Vec<String>> = (0..500)
        .map(|i| {
            vec![
                format!("row{}", i),
                format!("{}{}{}", FD, i, RD),
                format!("{}{}", ESC, i),
                String::new(),
            ]
        })
        .collect();
    let encoded = encode(&document);
    assert_eq!(decode(&encoded), Ok(document));
}
