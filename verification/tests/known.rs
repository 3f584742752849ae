use anki_tex::api::{CardInfo, NoteInfo, NoteInfoField};
use anki_tex::known::{card_ids, have_unique_field_names, known_notes, AssembleError};

fn field(name: &str, value: &str, order: usize) -> (String, NoteInfoField) {
    (String::from(name), NoteInfoField { value: String::from(value), order })
}

fn info(note_id: usize, model: &str, cards: &[usize]) -> NoteInfo {
    NoteInfo {
        note_id,
        model_name: String::from(model),
        fields: vec![field("Front", "q", 0), field("Back", "a", 1)],
        tags: vec![String::from("t")],
        cards: cards.to_vec(),
    }
}

fn card(card_id: usize, note: usize, deck: &str, question: &str) -> CardInfo {
    CardInfo {
        answer: String::from("answer"),
        question: String::from(question),
        deck_name: String::from(deck),
        model_name: String::from("Basic"),
        field_order: 0,
        fields: Vec::new(),
        css: String::new(),
        card_id,
        interval: 0,
        note,
        ord: 0,
        card_type: 0,
        queue: 0,
        due: 0,
        reps: 0,
        lapses: 0,
        left: 0,
        modified: 0,
    }
}

#[test]
fn card_ids_are_listed_note_by_note() {
    let infos = vec![info(1, "Basic", &[10, 11]), info(2, "Basic", &[]), info(3, "Basic", &[12])];
    assert_eq!(card_ids(&infos), vec![10, 11, 12]);
    assert!(card_ids(&Vec::new()).is_empty());
}

#[test]
fn notes_take_deck_and_question_from_their_cards() {
    let infos = vec![info(1, "Basic", &[10, 11]), info(2, "Cloze", &[12])];
    let cards = vec![
        card(10, 1, "Math", "first"),
        card(11, 1, "Math", "second"),
        card(12, 2, "Physics", "third"),
    ];
    let notes = known_notes(&infos, &cards).unwrap();
    assert_eq!(notes.len(), 2);
    assert_eq!(notes[0].id, Some(1));
    assert_eq!(notes[0].deck, "Math");
    assert_eq!(notes[0].model, "Basic");
    assert_eq!(
        notes[0].fields,
        vec![
            (String::from("Front"), String::from("q")),
            (String::from("Back"), String::from("a"))
        ]
    );
    assert_eq!(notes[0].tags, vec![String::from("t")]);
    assert_eq!(notes[0].question, Some(String::from("second")));
    assert_eq!(notes[1].id, Some(2));
    assert_eq!(notes[1].deck, "Physics");
    assert_eq!(notes[1].model, "Cloze");
    assert_eq!(notes[1].question, Some(String::from("third")));
}

#[test]
fn no_notes_and_no_cards_give_no_known_notes() {
    assert!(known_notes(&Vec::new(), &Vec::new()).unwrap().is_empty());
}

#[test]
fn wrong_number_of_cards_is_an_error() {
    let infos = vec![info(1, "Basic", &[10, 11])];
    let cards = vec![card(10, 1, "Math", "q")];
    assert_eq!(
        known_notes(&infos, &cards).err(),
        Some(AssembleError::CardCount { expected: 2, found: 1 })
    );
    assert_eq!(
        known_notes(&Vec::new(), &cards).err(),
        Some(AssembleError::CardCount { expected: 0, found: 1 })
    );
}

#[test]
fn note_without_cards_is_an_error() {
    let infos = vec![info(1, "Basic", &[10]), info(2, "Basic", &[])];
    let cards = vec![card(10, 1, "Math", "q")];
    assert_eq!(
        known_notes(&infos, &cards).err(),
        Some(AssembleError::NoCards { note_id: 2 })
    );
}

#[test]
fn cards_in_different_decks_are_an_error() {
    let infos = vec![info(1, "Basic", &[10]), info(2, "Basic", &[11, 12])];
    let cards = vec![
        card(10, 1, "Math", "q"),
        card(11, 2, "Math", "q"),
        card(12, 2, "Physics", "q"),
    ];
    assert_eq!(
        known_notes(&infos, &cards).err(),
        Some(AssembleError::DeckMismatch { note_id: 2 })
    );
}

#[test]
fn first_failing_note_is_reported() {
    let infos = vec![info(1, "Basic", &[10, 11]), info(2, "Basic", &[]), info(3, "Basic", &[])];
    let cards = vec![card(10, 1, "Math", "q"), card(11, 1, "Other", "q")];
    assert_eq!(
        known_notes(&infos, &cards).err(),
        Some(AssembleError::DeckMismatch { note_id: 1 })
    );
}

#[test]
fn reports_with_a_name_twice_are_told_apart() {
    let good = vec![info(1, "Basic", &[10]), info(2, "Basic", &[11])];
    assert!(have_unique_field_names(&good));
    assert!(have_unique_field_names(&Vec::new()));
    let mut bad = info(3, "Basic", &[12]);
    bad.fields.push(field("Front", "again", 2));
    assert!(!have_unique_field_names(&vec![info(1, "Basic", &[10]), bad]));
    let mut close = info(4, "Basic", &[13]);
    close.fields.push(field("front", "lower case", 2));
    assert!(have_unique_field_names(&vec![close]));
}

#[test]
fn known_notes_keep_their_field_names_unique() {
    let infos = vec![info(1, "Basic", &[10])];
    assert!(have_unique_field_names(&infos));
    let notes = known_notes(&infos, &vec![card(10, 1, "Math", "q")]).unwrap();
    let names: Vec<&String> = notes[0].fields.iter().map(|f| &f.0).collect();
    assert_eq!(names, vec!["Front", "Back"]);
}
