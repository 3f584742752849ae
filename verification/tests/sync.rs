use anki_tex::parse_file::{ParseError, FOOTER, HEADER};
use anki_tex::sync::{
    fmt_content, has_name, load_models, prepare, validate, Model, Pass, PassError, Rejection,
    State, TagOptions,
};
use anki_tex::Note;

fn document(body: &str) -> String {
    format!("{}{}{}", HEADER, body, FOOTER)
}

fn strings(items: &[&str]) -> Vec<String> {
    items.iter().map(|s| String::from(*s)).collect()
}

fn model(name: &str, fields: &[&str]) -> Model {
    Model { name: String::from(name), field_names: strings(fields) }
}

fn note(deck: &str, model: &str, fields: &[(&str, &str)], tags: &[&str]) -> Note {
    Note {
        id: None,
        deck: String::from(deck),
        model: String::from(model),
        fields: fields
            .iter()
            .map(|(n, v)| (String::from(*n), String::from(*v)))
            .collect(),
        tags: strings(tags),
        question: None,
    }
}

fn no_tags() -> TagOptions {
    TagOptions { add_generated: false, add_generation_date: None }
}

fn math_state(known: Vec<Note>) -> State {
    State::new(
        strings(&["Default", "Math"]),
        vec![model("Basic", &["Front", "Back"])],
        known,
    )
}

const SCENARIO: &str = " \\deck{Math} \\model{Basic} \\fields{Front}{2+2} \\fields{Back}{4} \\next ";

/// Runs a pass to its end against a store that creates every note and
/// numbers the notes from `first_id`. Returns the requests made.
fn run(pass: &mut Pass, state: &mut State, first_id: usize) -> Vec<anki_tex::api::Note> {
    let mut requests = Vec::new();
    while let Some(request) = pass.next_request(state) {
        let id = first_id + requests.len();
        requests.push(request);
        assert!(pass.record(state, Some(id)));
    }
    requests
}

#[test]
fn scenario_creates_exactly_one_note() {
    let mut state = math_state(Vec::new());
    let mut pass = state.plan(&document(SCENARIO), &no_tags()).unwrap();
    assert_eq!(pass.total(), 1);
    assert_eq!(pass.candidates()[0].deck, "Math");
    assert_eq!(pass.candidates()[0].model, "Basic");
    assert!(pass.candidates()[0].tags.is_empty());
    let requests = run(&mut pass, &mut state, 100);
    assert_eq!(requests.len(), 1);
    assert_eq!(requests[0].deck_name, "Math");
    assert_eq!(requests[0].model_name, "Basic");
    assert_eq!(
        requests[0].fields,
        vec![
            (String::from("Front"), String::from("[latex]2+2[/latex]")),
            (String::from("Back"), String::from("[latex]4[/latex]")),
        ]
    );
    assert!(requests[0].tags.is_empty());
    assert_eq!(pass.created(), 1);
    assert_eq!(state.added_notes.len(), 1);
    assert_eq!(state.added_notes[0].id, Some(100));
    assert!(pass.next_request(&state).is_none());
}

#[test]
fn rerun_against_known_note_creates_nothing() {
    let mut state = math_state(Vec::new());
    let mut first = state.plan(&document(SCENARIO), &no_tags()).unwrap();
    assert_eq!(run(&mut first, &mut state, 1).len(), 1);
    let mut second = state.plan(&document(SCENARIO), &no_tags()).unwrap();
    assert_eq!(second.total(), 1);
    assert!(second.next_request(&state).is_none());
    assert_eq!(second.created(), 0);
    assert_eq!(state.added_notes.len(), 1);
}

#[test]
fn known_note_with_other_whitespace_is_a_duplicate() {
    let mut known = note(
        "Math",
        "Basic",
        &[("Front", "[latex] 2 + 2 [/latex]"), ("Back", "[latex]4[/latex]"), ("Extra", "")],
        &[],
    );
    known.id = Some(5);
    let state = math_state(vec![known]);
    let mut pass = state.plan(&document(SCENARIO), &no_tags()).unwrap();
    assert!(pass.next_request(&state).is_none());
}

#[test]
fn unknown_deck_aborts_the_pass() {
    let state = math_state(Vec::new());
    let text = document(
        "\\deck{Math}\\model{Basic}\\fields{Front}{a}\\next\
         \\deck{Unknown}\\model{Basic}\\fields{Front}{b}\\next",
    );
    match state.plan(&text, &no_tags()) {
        Err(PassError::Rejected(Rejection::UnknownDeck(deck))) => assert_eq!(deck, "Unknown"),
        _ => panic!("expected an unknown deck"),
    }
    assert!(state.added_notes.is_empty());
}

#[test]
fn unknown_model_aborts_the_pass() {
    let state = math_state(Vec::new());
    let text = document("\\deck{Math}\\model{Cloze}\\fields{Front}{a}\\next");
    match state.plan(&text, &no_tags()) {
        Err(PassError::Rejected(Rejection::UnknownModel(model))) => assert_eq!(model, "Cloze"),
        _ => panic!("expected an unknown model"),
    }
}

#[test]
fn unknown_field_aborts_the_pass() {
    let state = math_state(Vec::new());
    let text = document("\\deck{Math}\\model{Basic}\\fields{Front}{a}\\fields{Hint}{h}\\next");
    match state.plan(&text, &no_tags()) {
        Err(PassError::Rejected(Rejection::UnknownField { model, field })) => {
            assert_eq!(model, "Basic");
            assert_eq!(field, "Hint");
        }
        _ => panic!("expected an unknown field"),
    }
}

#[test]
fn parse_error_aborts_the_pass() {
    let state = math_state(Vec::new());
    assert!(matches!(
        state.plan("no header", &no_tags()),
        Err(PassError::Parse(ParseError::MissingHeader(_)))
    ));
    assert!(matches!(
        state.plan(&document("\\deck{Math}\\model{Basic}\\next"), &no_tags()),
        Err(PassError::Parse(ParseError::EmptyFields))
    ));
}

#[test]
fn deck_is_checked_before_model_and_fields() {
    let notes = vec![note("X", "Y", &[("Z", "v")], &[])];
    let decks = strings(&["Math"]);
    let models = vec![model("Basic", &["Front"])];
    assert!(matches!(
        validate(&notes, &decks, &models),
        Err(Rejection::UnknownDeck(_))
    ));
    let notes = vec![note("Math", "Y", &[("Z", "v")], &[])];
    assert!(matches!(
        validate(&notes, &decks, &models),
        Err(Rejection::UnknownModel(_))
    ));
    let notes = vec![note("Math", "Basic", &[("Front", "v"), ("Z", "v"), ("Y", "v")], &[])];
    assert!(matches!(
        validate(&notes, &decks, &models),
        Err(Rejection::UnknownField { field, .. }) if field == "Z"
    ));
    let notes = vec![note("Math", "Basic", &[("Front", "v")], &[])];
    assert!(validate(&notes, &decks, &models).is_ok());
    assert!(validate(&Vec::new(), &Vec::new(), &Vec::new()).is_ok());
}

#[test]
fn first_unfit_note_is_reported() {
    let notes = vec![
        note("Math", "Basic", &[("Front", "v")], &[]),
        note("Math", "Nope", &[("Front", "v")], &[]),
        note("Gone", "Basic", &[("Front", "v")], &[]),
    ];
    let decks = strings(&["Math"]);
    let models = vec![model("Basic", &["Front"])];
    assert!(matches!(
        validate(&notes, &decks, &models),
        Err(Rejection::UnknownModel(name)) if name == "Nope"
    ));
}

#[test]
fn last_model_of_a_name_counts() {
    let decks = strings(&["Math"]);
    let models = vec![model("Basic", &["Front"]), model("Basic", &["Question"])];
    let notes = vec![note("Math", "Basic", &[("Question", "v")], &[])];
    assert!(validate(&notes, &decks, &models).is_ok());
    let notes = vec![note("Math", "Basic", &[("Front", "v")], &[])];
    assert!(validate(&notes, &decks, &models).is_err());
}

#[test]
fn equivalent_notes_in_one_document_are_created_once() {
    let mut state = math_state(Vec::new());
    let text = document(
        "\\deck{Math}\\model{Basic}\\fields{Front}{a b}\\next\
         \\deck{Math}\\model{Basic}\\fields{Front}{ab}\\next\
         \\deck{Math}\\model{Basic}\\fields{Front}{c}\\next",
    );
    let mut pass = state.plan(&text, &no_tags()).unwrap();
    assert_eq!(pass.total(), 3);
    let requests = run(&mut pass, &mut state, 1);
    assert_eq!(requests.len(), 2);
    assert_eq!(requests[0].fields[0].1, "[latex]a b[/latex]");
    assert_eq!(requests[1].fields[0].1, "[latex]c[/latex]");
    assert_eq!(pass.created(), 2);
    assert_eq!(state.added_notes.len(), 2);
}

#[test]
fn note_refused_by_the_store_is_neither_known_nor_counted() {
    let mut state = math_state(Vec::new());
    let mut pass = state.plan(&document(SCENARIO), &no_tags()).unwrap();
    assert!(pass.next_request(&state).is_some());
    assert!(pass.record(&mut state, None));
    assert_eq!(pass.created(), 0);
    assert_eq!(pass.decided(), 1);
    assert!(state.added_notes.is_empty());
    // the pass has moved on: the refused note is not asked for again
    assert!(pass.next_request(&state).is_none());
}

#[test]
fn known_notes_only_grow_by_created_notes() {
    let mut known = note("Math", "Basic", &[("Front", "[latex]old[/latex]")], &[]);
    known.id = Some(1);
    let mut state = math_state(vec![known]);
    let text = document(
        "\\deck{Math}\\model{Basic}\\fields{Front}{a}\\next\
         \\deck{Math}\\model{Basic}\\fields{Front}{b}\\next\
         \\deck{Math}\\model{Basic}\\fields{Front}{c}\\next",
    );
    let mut pass = state.plan(&text, &no_tags()).unwrap();
    assert_eq!(pass.replay(&mut state, &vec![Some(10), None, Some(12)]), 3);
    let ids: Vec<Option<usize>> = state.added_notes.iter().map(|n| n.id).collect();
    assert_eq!(ids, vec![Some(1), Some(10), Some(12)]);
    assert_eq!(state.added_notes[0].fields[0].1, "[latex]old[/latex]");
    assert_eq!(state.added_notes[1].fields[0].1, "[latex]a[/latex]");
    assert_eq!(state.added_notes[2].fields[0].1, "[latex]c[/latex]");
    assert_eq!(pass.created(), 2);
}

#[test]
fn request_is_repeated_until_its_answer_is_recorded() {
    let mut state = math_state(Vec::new());
    let mut pass = state.plan(&document(SCENARIO), &no_tags()).unwrap();
    let first = pass.next_request(&state).unwrap();
    let again = pass.next_request(&state).unwrap();
    assert_eq!(first.fields, again.fields);
    assert!(pass.record(&mut state, Some(1)));
    assert!(pass.next_request(&state).is_none());
}

#[test]
fn record_without_pending_request_changes_nothing() {
    let mut state = math_state(Vec::new());
    let mut pass = state.plan(&document(""), &no_tags()).unwrap();
    assert_eq!(pass.total(), 0);
    assert!(!pass.record(&mut state, Some(1)));
    assert_eq!(pass.created(), 0);
    assert!(state.added_notes.is_empty());
}

#[test]
fn tags_are_augmented() {
    let options = TagOptions {
        add_generated: true,
        add_generation_date: Some(String::from("2024-05-01")),
    };
    let prepared = prepare(note("d", "m", &[("f", "v")], &["own"]), &options);
    assert_eq!(prepared.tags, strings(&["own", "generated", "2024-05-01"]));
    assert_eq!(prepared.fields, vec![(String::from("f"), String::from("[latex]v[/latex]"))]);
    assert_eq!(prepared.deck, "d");
    assert_eq!(prepared.model, "m");
    assert_eq!(prepared.id, None);
    let only_date = TagOptions {
        add_generated: false,
        add_generation_date: Some(String::from("2024-05-01")),
    };
    assert_eq!(prepare(note("d", "m", &[], &[]), &only_date).tags, strings(&["2024-05-01"]));
    let only_generated = TagOptions { add_generated: true, add_generation_date: None };
    assert_eq!(prepare(note("d", "m", &[], &[]), &only_generated).tags, strings(&["generated"]));
    assert!(prepare(note("d", "m", &[], &[]), &no_tags()).tags.is_empty());
}

#[test]
fn augmented_tags_take_part_in_equivalence() {
    let mut state = math_state(Vec::new());
    let mut plain = state.plan(&document(SCENARIO), &no_tags()).unwrap();
    assert_eq!(run(&mut plain, &mut state, 1).len(), 1);
    let options = TagOptions { add_generated: true, add_generation_date: None };
    let mut tagged = state.plan(&document(SCENARIO), &options).unwrap();
    let requests = run(&mut tagged, &mut state, 2);
    assert_eq!(requests.len(), 1);
    assert_eq!(requests[0].tags, strings(&["generated"]));
}

#[test]
fn fmt_content_wraps_in_markers() {
    assert_eq!(fmt_content(&String::from("x^2")), "[latex]x^2[/latex]");
    assert_eq!(fmt_content(&String::new()), "[latex][/latex]");
}

#[test]
fn unfinished_note_is_reported_by_the_pass() {
    let state = math_state(Vec::new());
    let pass = state
        .plan(&document(&format!("{}\\deck{{Math}}", SCENARIO)), &no_tags())
        .unwrap();
    assert!(pass.has_unfinished_note());
    assert_eq!(pass.total(), 1);
    let pass = state.plan(&document(SCENARIO), &no_tags()).unwrap();
    assert!(!pass.has_unfinished_note());
}

#[test]
fn unchanged_text_is_noticed() {
    let mut state = math_state(Vec::new());
    assert_eq!(state.last_fingerprint, None);
    assert!(state.observe("some text"));
    assert!(state.last_fingerprint.is_some());
    assert!(!state.observe("some text"));
    assert!(!state.observe("some text"));
    assert!(state.observe("some other text"));
    assert!(state.observe("some text"));
}

#[test]
fn same_text_in_another_session_has_the_same_fingerprint() {
    let mut a = math_state(Vec::new());
    let mut b = math_state(vec![note("Math", "Basic", &[("Front", "x")], &[])]);
    assert!(a.observe("the text"));
    assert!(b.observe("the text"));
    assert_eq!(a.last_fingerprint, b.last_fingerprint);
    assert_eq!(b.added_notes.len(), 1);
    assert_eq!(b.deck_names, strings(&["Default", "Math"]));
}

#[test]
fn fingerprint_of_a_text_is_not_a_constant() {
    let mut a = math_state(Vec::new());
    let mut b = math_state(Vec::new());
    a.observe("alpha");
    b.observe("beta");
    assert_ne!(a.last_fingerprint, b.last_fingerprint);
    let mut c = math_state(Vec::new());
    c.observe("alpha");
    assert_eq!(a.last_fingerprint, c.last_fingerprint);
}

#[test]
fn changed_compares_with_the_last_fingerprint() {
    let mut state = math_state(Vec::new());
    assert!(state.changed(0));
    assert!(!state.changed(0));
    assert!(state.changed(1));
    assert_eq!(state.last_fingerprint, Some(1));
}

#[test]
fn reload_replaces_decks_and_models_only() {
    let mut state = math_state(vec![note("Math", "Basic", &[("Front", "x")], &[])]);
    state.changed(9);
    state.reload(strings(&["Other"]), vec![model("Cloze", &["Text"])]);
    assert_eq!(state.deck_names, strings(&["Other"]));
    assert_eq!(state.models.len(), 1);
    assert_eq!(state.models[0].name, "Cloze");
    assert_eq!(state.added_notes.len(), 1);
    assert_eq!(state.last_fingerprint, Some(9));
}

#[test]
fn is_known_uses_equivalence() {
    let state = math_state(vec![note("Math", "Basic", &[("Front", "a b")], &[])]);
    assert!(state.is_known(&note("Math", "Basic", &[("Front", "ab")], &[])));
    assert!(!state.is_known(&note("Math", "Basic", &[("Front", "abc")], &[])));
    assert!(!math_state(Vec::new()).is_known(&note("Math", "Basic", &[("Front", "ab")], &[])));
}

#[test]
fn models_pair_names_with_field_names() {
    let models = load_models(
        strings(&["Basic", "Cloze", "Spare"]),
        vec![strings(&["Front", "Back"]), strings(&["Text"])],
    );
    assert_eq!(models.len(), 2);
    assert_eq!(models[0].name, "Basic");
    assert_eq!(models[0].field_names, strings(&["Front", "Back"]));
    assert_eq!(models[1].name, "Cloze");
    assert_eq!(models[1].field_names, strings(&["Text"]));
    assert!(load_models(Vec::new(), vec![strings(&["x"])]).is_empty());
}

#[test]
fn model_is_found_by_name() {
    let state = State::new(
        Vec::new(),
        vec![model("Basic", &["Front"]), model("Cloze", &["Text"]), model("Basic", &["Q"])],
        Vec::new(),
    );
    assert_eq!(state.model_named(&String::from("Basic")).unwrap().field_names, strings(&["Q"]));
    assert_eq!(state.model_named(&String::from("Cloze")).unwrap().field_names, strings(&["Text"]));
    assert!(state.model_named(&String::from("basic")).is_none());
}

#[test]
fn known_notes_can_be_replaced() {
    let mut state = math_state(vec![note("Math", "Basic", &[("Front", "x")], &[])]);
    state.changed(3);
    state.reload_notes(Vec::new());
    assert!(state.added_notes.is_empty());
    assert_eq!(state.deck_names, strings(&["Default", "Math"]));
    assert_eq!(state.last_fingerprint, Some(3));
}

#[test]
fn decided_counts_skipped_and_answered_candidates() {
    let mut state = math_state(vec![note("Math", "Basic", &[("Front", "[latex]a[/latex]")], &[])]);
    let text = document(
        "\\deck{Math}\\model{Basic}\\fields{Front}{a}\\next\
         \\deck{Math}\\model{Basic}\\fields{Front}{b}\\next",
    );
    let mut pass = state.plan(&text, &no_tags()).unwrap();
    assert_eq!(pass.decided(), 0);
    assert!(pass.next_request(&state).is_some());
    assert_eq!(pass.decided(), 1);
    assert!(pass.record(&mut state, Some(9)));
    assert_eq!(pass.decided(), 2);
    assert!(pass.next_request(&state).is_none());
    assert_eq!(pass.decided(), 2);
}

#[test]
fn replay_answers_requests_in_order() {
    let mut state = math_state(Vec::new());
    let text = document(
        "\\deck{Math}\\model{Basic}\\fields{Front}{a}\\next\
         \\deck{Math}\\model{Basic}\\fields{Front}{ a }\\next\
         \\deck{Math}\\model{Basic}\\fields{Front}{b}\\next\
         \\deck{Math}\\model{Basic}\\fields{Front}{c}\\next",
    );
    let mut pass = state.plan(&text, &no_tags()).unwrap();
    let made = pass.replay(&mut state, &vec![Some(1), None, Some(3), Some(4)]);
    assert_eq!(made, 3);
    assert_eq!(pass.created(), 2);
    assert_eq!(pass.decided(), 4);
    let ids: Vec<Option<usize>> = state.added_notes.iter().map(|n| n.id).collect();
    assert_eq!(ids, vec![Some(1), Some(3)]);
    // a second pass asks only for the note that the store refused
    let mut again = state.plan(&text, &no_tags()).unwrap();
    assert_eq!(again.replay(&mut state, &vec![Some(7), Some(8)]), 1);
    let ids: Vec<Option<usize>> = state.added_notes.iter().map(|n| n.id).collect();
    assert_eq!(ids, vec![Some(1), Some(3), Some(7)]);
    // and a third pass for nothing
    let mut third = state.plan(&text, &no_tags()).unwrap();
    assert_eq!(third.replay(&mut state, &vec![Some(9)]), 0);
    assert_eq!(state.added_notes.len(), 3);
}

#[test]
fn replay_stops_when_the_answers_run_out() {
    let mut state = math_state(Vec::new());
    let text = document(
        "\\deck{Math}\\model{Basic}\\fields{Front}{a}\\next\
         \\deck{Math}\\model{Basic}\\fields{Front}{b}\\next",
    );
    let mut pass = state.plan(&text, &no_tags()).unwrap();
    assert_eq!(pass.replay(&mut state, &vec![Some(1)]), 1);
    assert_eq!(state.added_notes.len(), 1);
    assert_eq!(pass.replay(&mut state, &Vec::new()), 0);
    assert_eq!(pass.replay(&mut state, &vec![Some(2), Some(3)]), 1);
    assert_eq!(state.added_notes.len(), 2);
}

#[test]
fn has_name_finds_exact_names() {
    let names = strings(&["a", "b"]);
    assert!(has_name(&names, &String::from("b")));
    assert!(!has_name(&names, &String::from("B")));
    assert!(!has_name(&Vec::new(), &String::from("a")));
}
