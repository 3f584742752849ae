use anki_tex::scanner::{get_all_matches, merge_tokens, Command, Pattern, PatternTable, Token};
use regex::Regex;

fn show(command: &Command) -> String {
    match command {
        Command::SetDeck(name) => format!("deck({})", name),
        Command::SetModel(name) => format!("model({})", name),
        Command::AddTag(tag) => format!("tag({})", tag),
        Command::SetField(name, value) => format!("field({},{})", name, value),
        Command::EndNote => String::from("next"),
    }
}

fn stream(text: &str) -> Vec<(usize, String)> {
    get_all_matches(text)
        .iter()
        .map(|t| (t.position, show(&t.command)))
        .collect()
}

/// The same stream computed with regular expressions: each pattern is
/// searched on its own, and the occurrences are sorted by position.
fn stream_by_regex(text: &str) -> Vec<(usize, String)> {
    let next = Regex::new(r"\\next").unwrap();
    let deck = Regex::new(r"\\deck\{([^\}]*)\}").unwrap();
    let model = Regex::new(r"\\model\{([^\}]*)\}").unwrap();
    let tag = Regex::new(r"\\tag\{([^\}]*)\}").unwrap();
    let field = Regex::new(r"\\fields\{([^\}]*)\}\{([^\}]*)\}").unwrap();
    let block = Regex::new(r"\\begin\{field\}\{([^\}]*)\}([\s\S]*?)\\end\{field\}").unwrap();
    let mut found: Vec<(usize, String)> = Vec::new();
    for m in next.find_iter(text) {
        found.push((m.start(), String::from("next")));
    }
    for m in deck.captures_iter(text) {
        found.push((m.get(0).unwrap().start(), format!("deck({})", &m[1])));
    }
    for m in model.captures_iter(text) {
        found.push((m.get(0).unwrap().start(), format!("model({})", &m[1])));
    }
    for m in tag.captures_iter(text) {
        found.push((m.get(0).unwrap().start(), format!("tag({})", &m[1])));
    }
    for m in field.captures_iter(text) {
        found.push((m.get(0).unwrap().start(), format!("field({},{})", &m[1], &m[2])));
    }
    for m in block.captures_iter(text) {
        found.push((m.get(0).unwrap().start(), format!("field({},{})", &m[1], &m[2])));
    }
    found.sort_by_key(|(start, _)| *start);
    found
        .into_iter()
        .map(|(start, what)| (text[..start].chars().count(), what))
        .collect()
}

#[test]
fn one_note_gives_five_tokens() {
    let text = " \\deck{Math} \\model{Basic} \\fields{Front}{2+2} \\fields{Back}{4} \\next ";
    assert_eq!(
        stream(text),
        vec![
            (1, String::from("deck(Math)")),
            (13, String::from("model(Basic)")),
            (27, String::from("field(Front,2+2)")),
            (47, String::from("field(Back,4)")),
            (64, String::from("next")),
        ]
    );
}

#[test]
fn text_without_commands_gives_no_token() {
    assert!(get_all_matches("").is_empty());
    assert!(get_all_matches("just some text \\section{x} \\dec{k}").is_empty());
}

#[test]
fn block_field_spans_lines_and_ends_at_the_nearest_end() {
    let text = "\\begin{field}{Back}\nline one\nline two\n\\end{field} x \\end{field}";
    assert_eq!(
        stream(text),
        vec![(0, String::from("field(Back,\nline one\nline two\n)"))]
    );
}

#[test]
fn unterminated_block_field_is_not_matched() {
    assert!(get_all_matches("\\begin{field}{Back} never ends").is_empty());
    assert!(get_all_matches("\\begin{field}{Back never ends \\end{field}").is_empty());
}

#[test]
fn unterminated_argument_is_not_matched() {
    assert!(get_all_matches("\\deck{Math").is_empty());
    assert!(get_all_matches("\\fields{Front}{2+2").is_empty());
    assert!(get_all_matches("\\fields{Front} {x}").is_empty());
}

#[test]
fn arguments_may_be_empty_and_span_lines() {
    assert_eq!(stream("\\deck{}"), vec![(0, String::from("deck()"))]);
    assert_eq!(stream("\\tag{a\nb}"), vec![(0, String::from("tag(a\nb)"))]);
    assert_eq!(stream("\\fields{}{}"), vec![(0, String::from("field(,)"))]);
}

#[test]
fn next_needs_no_boundary() {
    assert_eq!(
        stream("\\nextnote\\next"),
        vec![(0, String::from("next")), (9, String::from("next"))]
    );
}

#[test]
fn positions_count_characters() {
    assert_eq!(stream("\u{e9}\u{e9}\\next"), vec![(2, String::from("next"))]);
}

#[test]
fn patterns_are_searched_independently() {
    // the argument of the deck command holds a tag command
    let text = "\\deck{\\tag{x}";
    assert_eq!(
        stream(text),
        vec![(0, String::from("deck(\\tag{x)")), (6, String::from("tag(x)"))]
    );
}

#[test]
fn occurrences_of_one_pattern_do_not_overlap() {
    let text = "\\deck{\\deck{a}";
    assert_eq!(stream(text), vec![(0, String::from("deck(\\deck{a)"))]);
}

#[test]
fn stream_is_ordered_by_position() {
    let text = "\\next\\tag{b}\\deck{a}\\fields{x}{y}\\model{m}\\next\\begin{field}{f}v\\end{field}";
    let tokens = get_all_matches(text);
    assert_eq!(tokens.len(), 7);
    for pair in tokens.windows(2) {
        assert!(pair[0].position < pair[1].position);
    }
}

#[test]
fn scanner_agrees_with_regular_expressions() {
    let samples = [
        "",
        "plain",
        " \\deck{Math} \\model{Basic} \\fields{Front}{2+2} \\fields{Back}{4} \\next ",
        "\\deck{\\tag{x}",
        "\\deck{\\deck{a}",
        "\\deck{a}\\deck{b}\\next\\next",
        "\\begin{field}{F}\\tag{t}\\next\\end{field}\\next",
        "\\begin{field}{F}a\\end{field}b\\end{field}",
        "\\begin{field}{F}\\begin{field}{G}x\\end{field}y\\end{field}",
        "\\fields{a}{b}{c}\\fields{d} {e}\\fields{f}{g",
        "\\fields{\\fields{a}{b}{c}",
        "\\tag{}\\tag{ }\\tag{\n}",
        "\u{e9}\\tag{\u{1F600}}\u{e9}\\next",
        "\\model{a}}\\model{{b}",
        "\\\\next\\nex\\next",
        "\\begin{field}{a}\\end{field}",
        "\\begin{field}{a\\end{field}}\\end{field}",
        "\\deck{a::b}\n\\model{m}\n\\tag{t1}\\tag{t2}\n\\begin{field}{Front}\n$x<y$\n\\end{field}\n\\next\n",
    ];
    for text in samples {
        assert_eq!(stream(text), stream_by_regex(text), "{:?}", text);
    }
}

#[test]
fn table_scans_one_pattern() {
    let table = PatternTable::new();
    let text: Vec<char> = "\\tag{a}\\deck{d}\\tag{b}".chars().collect();
    let tags = table.scan(&text, Pattern::Tag);
    assert_eq!(tags.len(), 2);
    assert_eq!(tags[0].position, 0);
    assert_eq!(tags[1].position, 15);
    assert!(matches!(&tags[1].command, Command::AddTag(t) if t == "b"));
    assert!(table.scan(&text, Pattern::Next).is_empty());
}

#[test]
fn table_matches_at_one_position() {
    let table = PatternTable::new();
    let text: Vec<char> = "x\\fields{a}{b}".chars().collect();
    assert!(table.match_at(&text, Pattern::Field, 0).is_none());
    let (end, command) = table.match_at(&text, Pattern::Field, 1).unwrap();
    assert_eq!(end, 14);
    assert!(matches!(command, Command::SetField(n, v) if n == "a" && v == "b"));
    assert!(table.match_at(&text, Pattern::Deck, 1).is_none());
    assert!(table.match_at(&text, Pattern::Field, 14).is_none());
    assert!(table.match_at(&text, Pattern::Field, 99).is_none());
}

#[test]
fn merge_prefers_the_first_stream_on_equal_positions() {
    let a = vec![
        Token { position: 1, command: Command::EndNote },
        Token { position: 5, command: Command::AddTag(String::from("a")) },
    ];
    let b = vec![
        Token { position: 0, command: Command::SetDeck(String::from("d")) },
        Token { position: 5, command: Command::AddTag(String::from("b")) },
        Token { position: 9, command: Command::EndNote },
    ];
    let merged: Vec<(usize, String)> = merge_tokens(&a, &b)
        .iter()
        .map(|t| (t.position, show(&t.command)))
        .collect();
    assert_eq!(
        merged,
        vec![
            (0, String::from("deck(d)")),
            (1, String::from("next")),
            (5, String::from("tag(a)")),
            (5, String::from("tag(b)")),
            (9, String::from("next")),
        ]
    );
}

#[test]
fn duplicate_keeps_the_command() {
    let command = Command::SetField(String::from("n"), String::from("v"));
    assert_eq!(show(&command.duplicate()), "field(n,v)");
}
