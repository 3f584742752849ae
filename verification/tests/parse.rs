use anki_tex::parse_file::{
    build_notes, get_content, get_line_with_pos, get_longest_common_prefix, parse_document,
    Accumulator, ParseError, EXCERPT, FOOTER, HEADER,
};
use anki_tex::scanner::{get_all_matches, Command};

fn document(body: &str) -> String {
    format!("{}{}{}", HEADER, body, FOOTER)
}

fn pair(name: &str, value: &str) -> (String, String) {
    (String::from(name), String::from(value))
}

#[test]
fn header_and_footer_are_the_document_frame() {
    assert_eq!(
        HEADER,
        "\\documentclass{article}\n\\usepackage{ankitex}\n\\usepackage{custom}\n\n\\begin{document}\n"
    );
    assert_eq!(FOOTER, "\\end{document}");
    assert_eq!(EXCERPT, 50);
}

#[test]
fn single_note_is_parsed() {
    let notes = get_content(document(
        " \\deck{Math} \\model{Basic} \\fields{Front}{2+2} \\fields{Back}{4} \\next ",
    ))
    .unwrap();
    assert_eq!(notes.len(), 1);
    assert_eq!(notes[0].deck, "Math");
    assert_eq!(notes[0].model, "Basic");
    assert_eq!(notes[0].fields, vec![pair("Front", "2+2"), pair("Back", "4")]);
    assert!(notes[0].tags.is_empty());
    assert_eq!(notes[0].id, None);
    assert_eq!(notes[0].question, None);
}

#[test]
fn parsing_twice_gives_identical_notes() {
    let text = document(
        "\\deck{A}\\model{M}\\tag{t}\\tag{u}\\fields{F}{v}\\begin{field}{G}\nw\n\\end{field}\\next\
         \\deck{B}\\model{N}\\fields{H}{x}\\next",
    );
    let first = get_content(text.clone()).unwrap();
    let second = get_content(text).unwrap();
    assert_eq!(first.len(), 2);
    assert_eq!(first.len(), second.len());
    for (a, b) in first.iter().zip(second.iter()) {
        assert_eq!(a.id, b.id);
        assert_eq!(a.deck, b.deck);
        assert_eq!(a.model, b.model);
        assert_eq!(a.fields, b.fields);
        assert_eq!(a.tags, b.tags);
        assert_eq!(a.question, b.question);
    }
    assert_eq!(first[0].tags, vec![String::from("t"), String::from("u")]);
    assert_eq!(first[0].fields, vec![pair("F", "v"), pair("G", "\nw\n")]);
    assert_eq!(first[1].deck, "B");
}

#[test]
fn surrounding_whitespace_is_ignored() {
    let text = format!("\n\n  {}\\deck{{d}}\\model{{m}}\\fields{{f}}{{v}}\\next{}  \n", HEADER, FOOTER);
    assert_eq!(get_content(text).unwrap().len(), 1);
}

#[test]
fn empty_document_has_no_notes() {
    let parsed = parse_document(&document(""), HEADER, FOOTER).unwrap();
    assert!(parsed.is_empty());
    assert!(!parsed.has_unfinished_note());
    assert!(get_content(document("no commands here")).unwrap().is_empty());
}

#[test]
fn missing_header_is_a_framing_error() {
    let result = get_content(format!(
        "\\deck{{Math}} \\model{{Basic}} \\fields{{Front}}{{x}} \\next {}",
        FOOTER
    ));
    match result {
        Err(e) => {
            assert!(e.is_framing());
            assert!(matches!(e, ParseError::MissingHeader(_)));
            assert_eq!(e.message(), "file does not start with required header");
        }
        Ok(_) => panic!("parsed a document without header"),
    }
}

#[test]
fn header_mismatch_reports_the_first_difference() {
    let text = HEADER.replace("ankitex", "ankytex") + "\\next" + FOOTER;
    match get_content(text.clone()) {
        Err(ParseError::MissingHeader(mismatch)) => {
            let trimmed = text.trim();
            assert_eq!(mismatch.found_start, &trimmed[..50]);
            assert_eq!(mismatch.required_len, HEADER.chars().count());
            assert_eq!(mismatch.found_len, trimmed.chars().count());
            let difference = mismatch.difference.unwrap();
            assert_eq!(difference.position, 39);
            assert_eq!(difference.required, 'i');
            assert_eq!(difference.found, 'y');
            assert_eq!(difference.required_line, "\\usepackage{ankitex}");
            assert_eq!(difference.found_line, "\\usepackage{ankytex}");
        }
        _ => panic!("expected a header mismatch"),
    }
}

#[test]
fn file_shorter_than_header_has_no_difference() {
    match get_content(String::from("\\documentclass{article}\n")) {
        Err(ParseError::MissingHeader(mismatch)) => {
            assert!(mismatch.difference.is_none());
            assert_eq!(mismatch.found_start, "\\documentclass{article}");
            assert_eq!(mismatch.found_len, 23);
            assert_eq!(mismatch.required_len, 83);
        }
        _ => panic!("expected a header mismatch"),
    }
    assert!(matches!(
        get_content(String::new()),
        Err(ParseError::MissingHeader(_))
    ));
}

#[test]
fn missing_footer_is_a_framing_error() {
    let body = "\\deck{d}\\model{m}\\fields{f}{v}\\next and then sixty more characters of text to quote";
    match get_content(format!("{}{}", HEADER, body)) {
        Err(e) => {
            assert!(e.is_framing());
            assert_eq!(e.message(), "file does not end with required footer");
            match e {
                ParseError::MissingFooter(end) => {
                    assert_eq!(end.chars().count(), 50);
                    assert!(body.ends_with(&end));
                }
                _ => panic!("expected a missing footer"),
            }
        }
        Ok(_) => panic!("parsed a document without footer"),
    }
    match get_content(format!("{}x", HEADER)) {
        Err(ParseError::MissingFooter(end)) => assert_eq!(end, "x"),
        _ => panic!("expected a missing footer"),
    }
}

#[test]
fn header_alone_loses_its_last_line_feed() {
    // the whitespace around the file goes first, and with it the end of the header
    match get_content(String::from(HEADER)) {
        Err(ParseError::MissingHeader(mismatch)) => {
            assert!(mismatch.difference.is_none());
            assert_eq!(mismatch.found_len + 1, mismatch.required_len);
        }
        _ => panic!("expected a header mismatch"),
    }
}

#[test]
fn header_and_footer_may_not_overlap() {
    let result = parse_document("abcb", "abc", "cb");
    assert!(matches!(result, Err(ParseError::MissingFooter(_))));
    assert!(parse_document("abccb", "abc", "cb").is_ok());
}

#[test]
fn frame_is_configurable() {
    let parsed = parse_document(
        "BEGIN \\deck{d}\\model{m}\\fields{f}{v}\\next END",
        "BEGIN",
        "END",
    )
    .unwrap();
    assert_eq!(parsed.notes.len(), 1);
    assert!(matches!(
        parse_document("BEGIN \\next END", "START", "END"),
        Err(ParseError::MissingHeader(_))
    ));
}

#[test]
fn duplicate_tag_is_rejected() {
    let result = get_content(document(
        "\\deck{d}\\model{m}\\tag{x}\\fields{f}{v}\\tag{x}\\next",
    ));
    match result {
        Err(e) => {
            assert!(!e.is_framing());
            assert_eq!(e.message(), "Can't add tag x multiple times");
            assert!(matches!(e, ParseError::DuplicateTag(tag) if tag == "x"));
        }
        Ok(_) => panic!("accepted a duplicate tag"),
    }
}

#[test]
fn same_tag_in_two_notes_is_accepted() {
    let notes = get_content(document(
        "\\deck{d}\\model{m}\\tag{x}\\fields{f}{v}\\next\\deck{d}\\model{m}\\tag{x}\\fields{f}{v}\\next",
    ))
    .unwrap();
    assert_eq!(notes.len(), 2);
    assert_eq!(notes[1].tags, vec![String::from("x")]);
}

#[test]
fn duplicate_field_is_rejected() {
    let result = get_content(document(
        "\\deck{d}\\model{m}\\fields{f}{v}\\begin{field}{f}w\\end{field}\\next",
    ));
    match result {
        Err(e) => {
            assert_eq!(e.message(), "Field `f` was already added");
            assert!(matches!(e, ParseError::DuplicateField(name) if name == "f"));
        }
        Ok(_) => panic!("accepted a duplicate field"),
    }
}

#[test]
fn note_without_fields_is_rejected() {
    let result = get_content(document("\\deck{d}\\model{m}\\tag{t}\\next"));
    match result {
        Err(e) => {
            assert_eq!(e.message(), "Cannot add note without fields");
            assert!(matches!(e, ParseError::EmptyFields));
        }
        Ok(_) => panic!("accepted a note without fields"),
    }
}

#[test]
fn note_without_deck_is_rejected() {
    let result = get_content(document("\\model{m}\\fields{f}{v}\\next"));
    match result {
        Err(e) => {
            assert_eq!(e.message(), "Select a deck before ending a note");
            assert!(matches!(e, ParseError::MissingDeck));
        }
        Ok(_) => panic!("accepted a note without deck"),
    }
    assert!(matches!(
        get_content(document("\\next")),
        Err(ParseError::MissingDeck)
    ));
}

#[test]
fn note_without_model_is_rejected() {
    let result = get_content(document("\\deck{d}\\fields{f}{v}\\next"));
    match result {
        Err(e) => {
            assert_eq!(e.message(), "Select a model before ending a note");
            assert!(matches!(e, ParseError::MissingModel));
        }
        Ok(_) => panic!("accepted a note without model"),
    }
}

#[test]
fn deck_and_model_may_be_restated() {
    let notes = get_content(document(
        "\\deck{a}\\deck{b}\\model{m}\\model{n}\\fields{f}{v}\\next",
    ))
    .unwrap();
    assert_eq!(notes[0].deck, "b");
    assert_eq!(notes[0].model, "n");
}

#[test]
fn end_of_note_empties_the_accumulator() {
    // deck and model are not carried over to the second note
    let result = get_content(document(
        "\\deck{d}\\model{m}\\fields{f}{v}\\next\\fields{g}{w}\\next",
    ));
    assert!(matches!(result, Err(ParseError::MissingDeck)));
}

#[test]
fn first_error_wins() {
    let result = get_content(document(
        "\\deck{d}\\model{m}\\fields{f}{v}\\fields{f}{w}\\tag{t}\\tag{t}\\next",
    ));
    assert!(matches!(result, Err(ParseError::DuplicateField(_))));
}

#[test]
fn unfinished_note_is_discarded() {
    let parsed = parse_document(
        &document("\\deck{d}\\model{m}\\fields{f}{v}\\next\\deck{e}\\fields{g}{w}"),
        HEADER,
        FOOTER,
    )
    .unwrap();
    assert_eq!(parsed.notes.len(), 1);
    assert!(!parsed.is_empty());
    assert!(parsed.has_unfinished_note());
    assert_eq!(parsed.rest.deck, Some(String::from("e")));
    assert_eq!(parsed.rest.model, None);
    assert_eq!(parsed.rest.fields, vec![pair("g", "w")]);
    assert!(parsed.rest.tags.is_empty());
}

#[test]
fn accumulator_applies_commands_one_by_one() {
    let acc = Accumulator::new();
    let (acc, emitted) = acc.apply(&Command::SetDeck(String::from("d"))).unwrap();
    assert!(emitted.is_none());
    let (acc, _) = acc.apply(&Command::SetModel(String::from("m"))).unwrap();
    let (acc, _) = acc.apply(&Command::AddTag(String::from("t"))).unwrap();
    let (acc, _) = acc
        .apply(&Command::SetField(String::from("f"), String::from("v")))
        .unwrap();
    assert_eq!(acc.tags, vec![String::from("t")]);
    let (acc, emitted) = acc.apply(&Command::EndNote).unwrap();
    let note = emitted.unwrap();
    assert_eq!(note.deck, "d");
    assert_eq!(note.model, "m");
    assert_eq!(note.tags, vec![String::from("t")]);
    assert_eq!(note.fields, vec![pair("f", "v")]);
    assert_eq!(acc.deck, None);
    assert_eq!(acc.model, None);
    assert!(acc.tags.is_empty());
    assert!(acc.fields.is_empty());
    assert!(matches!(
        acc.apply(&Command::EndNote),
        Err(ParseError::MissingDeck)
    ));
}

#[test]
fn build_notes_runs_over_a_token_stream() {
    let tokens = get_all_matches("\\deck{d}\\model{m}\\fields{f}{v}\\next\\tag{t}");
    let parsed = build_notes(&tokens).unwrap();
    assert_eq!(parsed.notes.len(), 1);
    assert_eq!(parsed.rest.tags, vec![String::from("t")]);
    let tokens = get_all_matches("\\tag{t}\\tag{t}");
    assert!(matches!(
        build_notes(&tokens),
        Err(ParseError::DuplicateTag(_))
    ));
}

#[test]
fn commands_apply_in_order_of_position() {
    // the block field holds a tag command, which counts as a tag of the note
    let notes = get_content(document(
        "\\deck{d}\\model{m}\\begin{field}{f}a\\tag{t}b\\end{field}\\next",
    ))
    .unwrap();
    assert_eq!(notes[0].fields, vec![pair("f", "a\\tag{t}b")]);
    assert_eq!(notes[0].tags, vec![String::from("t")]);
}

#[test]
fn longest_common_prefix_is_the_first_difference() {
    assert_eq!(get_longest_common_prefix("abcd", "abxd"), Some(2));
    assert_eq!(get_longest_common_prefix("abcd", "xbcd"), Some(0));
    assert_eq!(get_longest_common_prefix("abc", "abcd"), None);
    assert_eq!(get_longest_common_prefix("abcd", "abc"), None);
    assert_eq!(get_longest_common_prefix("abc", "abc"), None);
    assert_eq!(get_longest_common_prefix("", "abc"), None);
    assert_eq!(get_longest_common_prefix("", ""), None);
    assert_eq!(get_longest_common_prefix("\u{e9}a", "\u{e9}b"), Some(1));
}

#[test]
fn line_with_pos_is_the_line_that_holds_the_position() {
    let text = "first\nsecond\r\nthird";
    assert_eq!(get_line_with_pos(text, 0), "first");
    assert_eq!(get_line_with_pos(text, 4), "first");
    assert_eq!(get_line_with_pos(text, 5), "first");
    assert_eq!(get_line_with_pos(text, 6), "second");
    assert_eq!(get_line_with_pos(text, 12), "second");
    assert_eq!(get_line_with_pos(text, 13), "second");
    assert_eq!(get_line_with_pos(text, 14), "third");
    assert_eq!(get_line_with_pos(text, 18), "third");
    assert_eq!(get_line_with_pos(text, 19), "");
    assert_eq!(get_line_with_pos(text, 100), "");
    assert_eq!(get_line_with_pos("", 0), "");
    assert_eq!(get_line_with_pos("a\n\nb", 2), "");
    assert_eq!(get_line_with_pos("a\n\nb", 3), "b");
}
