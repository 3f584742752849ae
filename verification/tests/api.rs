use anki_tex::api::{
    creation_request, describe_fields, is_duplicate_refusal, unrendered_note_id, NoteInfo,
    NoteInfoField,
};
use anki_tex::api::{DeckNames, ModelFieldNames, ModelNames};
use anki_tex::Note;

fn field(name: &str, value: &str, order: usize) -> (String, NoteInfoField) {
    (String::from(name), NoteInfoField { value: String::from(value), order })
}

fn info(fields: Vec<(String, NoteInfoField)>) -> NoteInfo {
    NoteInfo { note_id: 1, model_name: String::from("Basic"), fields, tags: Vec::new(), cards: Vec::new() }
}

#[test]
fn name_lists_hold_their_names() {
    let decks = DeckNames(vec![String::from("Default")]);
    let models = ModelNames(vec![String::from("Basic")]);
    let fields = ModelFieldNames(vec![String::from("Front")]);
    assert_eq!(decks.0, vec![String::from("Default")]);
    assert_eq!(models.0, vec![String::from("Basic")]);
    assert_eq!(fields.0, vec![String::from("Front")]);
}

#[test]
fn creation_request_copies_the_note() {
    let note = Note {
        id: Some(4),
        deck: String::from("Math"),
        model: String::from("Basic"),
        fields: vec![(String::from("Front"), String::from("x"))],
        tags: vec![String::from("t")],
        question: Some(String::from("q")),
    };
    let request = creation_request(&note);
    assert_eq!(request.deck_name, "Math");
    assert_eq!(request.model_name, "Basic");
    assert_eq!(request.fields, note.fields);
    assert_eq!(request.tags, note.tags);
}

#[test]
fn duplicate_refusal_is_recognised_by_its_ending() {
    assert!(is_duplicate_refusal("cannot create note because it is a duplicate"));
    assert!(is_duplicate_refusal(
        "anki returned an error: cannot create note because it is a duplicate"
    ));
    assert!(!is_duplicate_refusal("cannot create note because it is a duplicate."));
    assert!(!is_duplicate_refusal("duplicate"));
    assert!(!is_duplicate_refusal(""));
}

#[test]
fn unrendered_note_id_is_read_from_the_cause() {
    let words = "anki returned an error: Can't render note with id ";
    assert_eq!(unrendered_note_id(&format!("{}1234: bad latex", words)), Some(1234));
    assert_eq!(unrendered_note_id(&format!("{}0:", words)), Some(0));
    assert_eq!(unrendered_note_id(&format!("{}007: x: y", words)), Some(7));
    assert_eq!(unrendered_note_id(&format!("{}+5: x", words)), Some(5));
    assert_eq!(
        unrendered_note_id(&format!("{}{}: x", words, usize::MAX)),
        Some(usize::MAX)
    );
}

#[test]
fn unrendered_note_id_refuses_other_causes() {
    let words = "anki returned an error: Can't render note with id ";
    assert_eq!(unrendered_note_id("something else"), None);
    assert_eq!(unrendered_note_id(""), None);
    assert_eq!(unrendered_note_id(words), None);
    assert_eq!(unrendered_note_id(&format!("{}1234", words)), None);
    assert_eq!(unrendered_note_id(&format!("{}: x", words)), None);
    assert_eq!(unrendered_note_id(&format!("{}+: x", words)), None);
    assert_eq!(unrendered_note_id(&format!("{}-5: x", words)), None);
    assert_eq!(unrendered_note_id(&format!("{}12a: x", words)), None);
    assert_eq!(unrendered_note_id(&format!("{} 12: x", words)), None);
    assert_eq!(unrendered_note_id(&format!("x{}12: x", words)), None);
    assert_eq!(
        unrendered_note_id(&format!("{}{}0: x", words, usize::MAX)),
        None
    );
    assert_eq!(
        unrendered_note_id(&format!("{}99999999999999999999999999x: y", words)),
        None
    );
}

#[test]
fn unrendered_note_id_agrees_with_parse() {
    let words = "anki returned an error: Can't render note with id ";
    for text in ["1", "+1", "++1", "", "+", "18446744073709551615", "18446744073709551616", "1_0", "٣"] {
        let expected: Option<usize> = text.parse().ok();
        assert_eq!(unrendered_note_id(&format!("{}{}:", words, text)), expected, "{:?}", text);
    }
}

#[test]
fn fields_are_described_by_order() {
    let note = info(vec![field("Back", "a", 1), field("Extra", "e", 2), field("Front", "q", 0)]);
    assert_eq!(describe_fields(&note), "fields of note: Front: q\nBack: a\nExtra: e");
}

#[test]
fn fields_of_equal_order_keep_their_places() {
    let note = info(vec![field("b", "2", 1), field("a", "1", 1), field("c", "3", 0), field("d", "4", 1)]);
    assert_eq!(describe_fields(&note), "fields of note: c: 3\nb: 2\na: 1\nd: 4");
}

#[test]
fn note_without_fields_is_described_by_the_heading() {
    assert_eq!(describe_fields(&info(Vec::new())), "fields of note: ");
    assert_eq!(describe_fields(&info(vec![field("a", "", 3)])), "fields of note: a: ");
}
