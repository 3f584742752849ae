use anki_tex::note::{same_string, same_strings, Preview};
use anki_tex::Note;

fn note(deck: &str, model: &str, fields: &[(&str, &str)], tags: &[&str]) -> Note {
    Note {
        id: None,
        deck: String::from(deck),
        model: String::from(model),
        fields: fields
            .iter()
            .map(|(n, v)| (String::from(*n), String::from(*v)))
            .collect(),
        tags: tags.iter().map(|t| String::from(*t)).collect(),
        question: None,
    }
}

#[test]
fn equivalence_is_reflexive() {
    let a = note("d", "m", &[("Front", "x < y"), ("Back", "")], &["t", "u"]);
    assert!(a.equivalent(&a));
    assert!(a == a);
    let empty = note("", "", &[], &[]);
    assert!(empty.equivalent(&empty));
}

#[test]
fn equivalence_is_symmetric() {
    let notes = [
        note("d", "m", &[("Front", "x")], &[]),
        note("d", "m", &[("Front", " x ")], &[]),
        note("d", "m", &[("Front", "y")], &[]),
        note("d", "m", &[("Front", "x"), ("Back", "")], &[]),
        note("e", "m", &[("Front", "x")], &[]),
        note("d", "m", &[("Front", "x")], &["t"]),
    ];
    for a in &notes {
        for b in &notes {
            assert_eq!(a.equivalent(b), b.equivalent(a));
            assert_eq!(a == b, a.equivalent(b));
        }
    }
}

#[test]
fn whitespace_in_values_is_ignored() {
    let a = note("d", "m", &[("Front", "what is 2 + 2 ?")], &[]);
    let b = note("d", "m", &[("Front", "what\nis 2+2?\n")], &[]);
    assert!(a.equivalent(&b));
}

#[test]
fn escaped_brackets_are_literal_brackets() {
    let a = note("d", "m", &[("Front", "a &lt; b &gt; c")], &[]);
    let b = note("d", "m", &[("Front", "a < b > c")], &[]);
    assert!(a.equivalent(&b));
}

#[test]
fn names_are_canonicalized_too() {
    let a = note("d", "m", &[("Front side", "x")], &[]);
    let b = note("d", "m", &[("Frontside", "x")], &[]);
    assert!(a.equivalent(&b));
}

#[test]
fn tag_order_matters() {
    let a = note("d", "m", &[("Front", "x")], &["t", "u"]);
    let b = note("d", "m", &[("Front", "x")], &["u", "t"]);
    assert!(!a.equivalent(&b));
    let c = note("d", "m", &[("Front", "x")], &["t"]);
    assert!(!a.equivalent(&c));
}

#[test]
fn tags_are_compared_exactly() {
    let a = note("d", "m", &[("Front", "x")], &["t u"]);
    let b = note("d", "m", &[("Front", "x")], &["tu"]);
    assert!(!a.equivalent(&b));
}

#[test]
fn deck_and_model_are_compared_exactly() {
    let a = note("d", "m", &[("Front", "x")], &[]);
    assert!(!a.equivalent(&note("d ", "m", &[("Front", "x")], &[])));
    assert!(!a.equivalent(&note("d", "n", &[("Front", "x")], &[])));
}

#[test]
fn field_order_does_not_matter() {
    let a = note("d", "m", &[("Front", "x"), ("Back", "y")], &[]);
    let b = note("d", "m", &[("Back", "y"), ("Front", "x")], &[]);
    assert!(a.equivalent(&b));
}

#[test]
fn fields_with_empty_value_are_left_out() {
    let a = note("d", "m", &[("Front", "x"), ("Extra", "")], &[]);
    let b = note("d", "m", &[("Front", "x")], &[]);
    assert!(a.equivalent(&b));
    // a value of whitespace only is not empty
    let c = note("d", "m", &[("Front", "x"), ("Extra", " ")], &[]);
    assert!(!c.equivalent(&b));
    assert!(!c.equivalent(&a));
}

#[test]
fn different_values_are_not_equivalent() {
    let a = note("d", "m", &[("Front", "x")], &[]);
    assert!(!a.equivalent(&note("d", "m", &[("Front", "y")], &[])));
    assert!(!a.equivalent(&note("d", "m", &[("Back", "x")], &[])));
    assert!(!a.equivalent(&note("d", "m", &[("Front", "x"), ("Back", "y")], &[])));
    assert!(!a.equivalent(&note("d", "m", &[], &[])));
}

#[test]
fn equal_canonical_pairs_count_once() {
    let a = note("d", "m", &[("F", "x"), ("F ", " x")], &[]);
    let b = note("d", "m", &[("F", "x")], &[]);
    assert!(a.equivalent(&b));
}

#[test]
fn identifier_and_question_are_ignored() {
    let a = note("d", "m", &[("Front", "x")], &[]);
    let mut b = note("d", "m", &[("Front", "x")], &[]);
    b.id = Some(7);
    b.question = Some(String::from("rendered"));
    assert!(a.equivalent(&b));
    assert!(!a.identifiers_differ(&b));
    let mut c = note("d", "m", &[("Front", "x")], &[]);
    c.id = Some(8);
    assert!(b.equivalent(&c));
    assert!(b.identifiers_differ(&c));
    assert!(!b.identifiers_differ(&b));
}

#[test]
fn question_or_fields_prefers_the_question() {
    let fields = vec![(String::from("Front"), String::from("x"))];
    let question = Some(String::from("q"));
    match Note::question_or_fields(&question, &fields) {
        Preview::Question(q) => assert_eq!(q, "q"),
        Preview::Fields(_) => panic!("expected the question"),
    }
    match Note::question_or_fields(&None, &fields) {
        Preview::Fields(f) => assert_eq!(f, &fields),
        Preview::Question(_) => panic!("expected the fields"),
    }
}

#[test]
fn duplicate_copies_every_part() {
    let mut a = note("d", "m", &[("Front", "x"), ("Back", "y")], &["t"]);
    a.id = Some(3);
    a.question = Some(String::from("q"));
    let b = a.duplicate();
    assert_eq!(b.id, Some(3));
    assert_eq!(b.deck, "d");
    assert_eq!(b.model, "m");
    assert_eq!(b.fields, a.fields);
    assert_eq!(b.tags, a.tags);
    assert_eq!(b.question, a.question);
}

#[test]
fn strings_are_compared_by_content() {
    assert!(same_string(&String::from("a"), &String::from("a")));
    assert!(!same_string(&String::from("a"), &String::from("b")));
    let x = vec![String::from("a"), String::from("b")];
    let y = vec![String::from("a"), String::from("b")];
    let z = vec![String::from("b"), String::from("a")];
    assert!(same_strings(&x, &y));
    assert!(!same_strings(&x, &z));
    assert!(!same_strings(&x, &Vec::new()));
}
