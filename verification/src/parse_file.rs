//! The note builder.
//!
//! A document is a required header, a body and a required footer, with
//! whitespace allowed around the whole. The commands of the body are applied
//! in order of position to an accumulator that gathers one note at a time;
//! `\next` completes the note and empties the accumulator.

use crate::note::{distinct_names, distinct_tags, Note, NoteView};
use crate::scanner::{token_stream, Command, CommandView, PatternTable, Token, TokenView};
use crate::text::{
    ends_with, find, find_exec, occurs_at, occurs_at_exec, to_chars, to_string, trim, trim_bounds,
};
use vstd::prelude::*;

verus! {

/// The text with which every document begins.
pub const HEADER: &'static str =
    "\\documentclass{article}\n\\usepackage{ankitex}\n\\usepackage{custom}\n\n\\begin{document}\n";

/// The text with which every document ends.
pub const FOOTER: &'static str = "\\end{document}";

/// How many characters of the file an error quotes.
pub const EXCERPT: usize = 50;

/// The first place at which a file departs from the required header.
#[derive(Debug)]
pub struct Difference {
    /// The character index of the first difference.
    pub position: usize,
    /// The character that the header has there.
    pub required: char,
    /// The character that the file has there.
    pub found: char,
    /// The line of the header that holds the position.
    pub required_line: String,
    /// The line of the file that holds the position.
    pub found_line: String,
}

/// The mathematical value of a `Difference`.
pub struct DifferenceView {
    pub position: int,
    pub required: char,
    pub found: char,
    pub required_line: Seq<char>,
    pub found_line: Seq<char>,
}

impl View for Difference {
    type V = DifferenceView;

    open spec fn view(&self) -> DifferenceView {
        DifferenceView {
            position: self.position as int,
            required: self.required,
            found: self.found,
            required_line: self.required_line@,
            found_line: self.found_line@,
        }
    }
}

/// What a file without the required header started with.
#[derive(Debug)]
pub struct HeaderMismatch {
    /// The first characters of the file, `EXCERPT` at most.
    pub found_start: String,
    /// How many characters the header has.
    pub required_len: usize,
    /// How many characters the file has, surrounding whitespace not counted.
    pub found_len: usize,
    /// Where file and header first differ; `None` where the file ends before
    /// any difference.
    pub difference: Option<Difference>,
}

/// The mathematical value of a `HeaderMismatch`.
pub struct HeaderMismatchView {
    pub found_start: Seq<char>,
    pub required_len: int,
    pub found_len: int,
    pub difference: Option<DifferenceView>,
}

impl View for HeaderMismatch {
    type V = HeaderMismatchView;

    open spec fn view(&self) -> HeaderMismatchView {
        HeaderMismatchView {
            found_start: self.found_start@,
            required_len: self.required_len as int,
            found_len: self.found_len as int,
            difference: match self.difference {
                Some(d) => Some(d@),
                None => None,
            },
        }
    }
}

/// Why a document was refused.
#[derive(Debug)]
pub enum ParseError {
    /// The file does not start with the required header.
    MissingHeader(HeaderMismatch),
    /// The file does not end with the required footer; the payload is what
    /// it ended with instead, `EXCERPT` characters at most.
    MissingFooter(String),
    /// The tag was added twice to one note.
    DuplicateTag(String),
    /// The field was set twice in one note.
    DuplicateField(String),
    /// A note was ended before a deck was selected.
    MissingDeck,
    /// A note was ended before a model was selected.
    MissingModel,
    /// A note was ended without any field.
    EmptyFields,
}

/// The mathematical value of a `ParseError`.
pub enum ParseErrorView {
    MissingHeader(HeaderMismatchView),
    MissingFooter(Seq<char>),
    DuplicateTag(Seq<char>),
    DuplicateField(Seq<char>),
    MissingDeck,
    MissingModel,
    EmptyFields,
}

impl View for ParseError {
    type V = ParseErrorView;

    open spec fn view(&self) -> ParseErrorView {
        match self {
            ParseError::MissingHeader(m) => ParseErrorView::MissingHeader(m@),
            ParseError::MissingFooter(end) => ParseErrorView::MissingFooter(end@),
            ParseError::DuplicateTag(tag) => ParseErrorView::DuplicateTag(tag@),
            ParseError::DuplicateField(name) => ParseErrorView::DuplicateField(name@),
            ParseError::MissingDeck => ParseErrorView::MissingDeck,
            ParseError::MissingModel => ParseErrorView::MissingModel,
            ParseError::EmptyFields => ParseErrorView::EmptyFields,
        }
    }
}

impl ParseErrorView {
    /// The error is about the frame of the document, not about a note.
    pub open spec fn is_framing(self) -> bool {
        self is MissingHeader || self is MissingFooter
    }

    /// The one-line message of the error.
    pub open spec fn message(self) -> Seq<char> {
        match self {
            ParseErrorView::MissingHeader(_) => "file does not start with required header"@,
            ParseErrorView::MissingFooter(_) => "file does not end with required footer"@,
            ParseErrorView::DuplicateTag(tag) => "Can't add tag "@ + tag + " multiple times"@,
            ParseErrorView::DuplicateField(name) => "Field `"@ + name + "` was already added"@,
            ParseErrorView::MissingDeck => "Select a deck before ending a note"@,
            ParseErrorView::MissingModel => "Select a model before ending a note"@,
            ParseErrorView::EmptyFields => "Cannot add note without fields"@,
        }
    }
}

impl ParseError {
    /// Whether the error is about the frame of the document.
    pub fn is_framing(&self) -> (r: bool)
        ensures
            r == self@.is_framing(),
    {
        match self {
            ParseError::MissingHeader(_) => true,
            ParseError::MissingFooter(_) => true,
            _ => false,
        }
    }

    /// The one-line message of the error.
    pub fn message(&self) -> (r: String)
        ensures
            r@ == self@.message(),
    {
        match self {
            ParseError::MissingHeader(_) => String::from_str(
                "file does not start with required header",
            ),
            ParseError::MissingFooter(_) => String::from_str(
                "file does not end with required footer",
            ),
            ParseError::DuplicateTag(tag) => {
                let mut s = String::from_str("Can't add tag ");
                s.append(tag.as_str());
                s.append(" multiple times");
                s
            },
            ParseError::DuplicateField(name) => {
                let mut s = String::from_str("Field `");
                s.append(name.as_str());
                s.append("` was already added");
                s
            },
            ParseError::MissingDeck => String::from_str("Select a deck before ending a note"),
            ParseError::MissingModel => String::from_str("Select a model before ending a note"),
            ParseError::EmptyFields => String::from_str("Cannot add note without fields"),
        }
    }
}

/// The number of leading positions at which `a` and `b` agree.
pub open spec fn common_prefix_len(a: Seq<char>, b: Seq<char>) -> int
    decreases a.len(),
{
    if a.len() > 0 && b.len() > 0 && a[0] == b[0] {
        1 + common_prefix_len(a.drop_first(), b.drop_first())
    } else {
        0
    }
}

/// The first position at which `a` and `b` hold different characters;
/// `None` where one is a prefix of the other.
pub open spec fn first_difference(a: Seq<char>, b: Seq<char>) -> Option<int> {
    let n = common_prefix_len(a, b);
    if n < a.len() && n < b.len() {
        Some(n)
    } else {
        None
    }
}

/// The common prefix is as long as it can be: the texts agree before it and
/// differ at it, unless one of them ends there.
pub proof fn lemma_common_prefix(a: Seq<char>, b: Seq<char>)
    ensures
        0 <= common_prefix_len(a, b) <= a.len(),
        common_prefix_len(a, b) <= b.len(),
        forall|k: int| 0 <= k < common_prefix_len(a, b) ==> a[k] == b[k],
        common_prefix_len(a, b) < a.len() && common_prefix_len(a, b) < b.len() ==> a[common_prefix_len(
            a,
            b,
        )] != b[common_prefix_len(a, b)],
    decreases a.len(),
{
    if a.len() > 0 && b.len() > 0 && a[0] == b[0] {
        lemma_common_prefix(a.drop_first(), b.drop_first());
        let n = common_prefix_len(a.drop_first(), b.drop_first());
        assert forall|k: int| 0 <= k < n + 1 implies a[k] == b[k] by {
            if k > 0 {
                assert(a.drop_first()[k - 1] == b.drop_first()[k - 1]);
            }
        }
        if n < a.len() - 1 && n < b.len() - 1 {
            assert(a.drop_first()[n] == a[n + 1]);
            assert(b.drop_first()[n] == b[n + 1]);
        }
    }
}

/// Two texts that agree on their first `n` characters and differ at `n`, or
/// of which one ends at `n`, have a common prefix of length `n`.
pub proof fn lemma_common_prefix_unique(a: Seq<char>, b: Seq<char>, n: int)
    requires
        0 <= n <= a.len(),
        n <= b.len(),
        forall|k: int| 0 <= k < n ==> a[k] == b[k],
        n < a.len() && n < b.len() ==> a[n] != b[n],
    ensures
        common_prefix_len(a, b) == n,
{
    lemma_common_prefix(a, b);
    let m = common_prefix_len(a, b);
    if m < n {
        assert(a[m] == b[m]);
    }
    if n < m {
        assert(a[n] == b[n]);
    }
}

/// The position at which the line holding position `pos` begins.
pub open spec fn line_start(text: Seq<char>, pos: int) -> int
    decreases pos,
{
    if pos <= 0 {
        0
    } else if text[pos - 1] == '\n' {
        pos
    } else {
        line_start(text, pos - 1)
    }
}

/// The line feed as a text.
pub open spec fn line_feed() -> Seq<char> {
    seq!['\n']
}

/// `line` without the carriage return that may end it.
pub open spec fn without_carriage_return(line: Seq<char>) -> Seq<char> {
    if line.len() > 0 && line.last() == '\r' {
        line.drop_last()
    } else {
        line
    }
}

/// The line of `text` that holds position `pos`, without its terminator: it
/// runs from the character after the preceding line feed up to the next line
/// feed, a carriage return before that line feed not counted. Empty where
/// `pos` is not a position of `text`.
pub open spec fn line_at(text: Seq<char>, pos: int) -> Seq<char> {
    if 0 <= pos < text.len() {
        without_carriage_return(
            text.subrange(line_start(text, pos), find(text, pos, line_feed())),
        )
    } else {
        Seq::empty()
    }
}

/// What a file without the required header reports: its beginning, the two
/// lengths, and the first difference with the line of each side.
pub open spec fn header_mismatch(found: Seq<char>, header: Seq<char>) -> HeaderMismatchView {
    HeaderMismatchView {
        found_start: found.take(
            if found.len() < EXCERPT {
                found.len() as int
            } else {
                EXCERPT as int
            },
        ),
        required_len: header.len() as int,
        found_len: found.len() as int,
        difference: match first_difference(found, header) {
            Some(at) => Some(
                DifferenceView {
                    position: at,
                    required: header[at],
                    found: found[at],
                    required_line: line_at(header, at),
                    found_line: line_at(found, at),
                },
            ),
            None => None,
        },
    }
}

/// What a file without the required footer ended with.
pub open spec fn footer_excerpt(found: Seq<char>) -> Seq<char> {
    found.skip(
        if found.len() < EXCERPT {
            0
        } else {
            found.len() - EXCERPT
        },
    )
}

/// The body of a document: what stands between header and footer once the
/// surrounding whitespace is gone.
pub open spec fn frame_body(content: Seq<char>, header: Seq<char>, footer: Seq<char>) -> Result<
    Seq<char>,
    ParseErrorView,
> {
    let trimmed = trim(content);
    let rest = trimmed.skip(header.len() as int);
    if !occurs_at(trimmed, 0, header) {
        Err(ParseErrorView::MissingHeader(header_mismatch(trimmed, header)))
    } else if !ends_with(rest, footer) {
        Err(ParseErrorView::MissingFooter(footer_excerpt(rest)))
    } else {
        Ok(rest.take(rest.len() - footer.len()))
    }
}

/// The note under construction.
#[derive(Debug)]
pub struct Accumulator {
    pub deck: Option<String>,
    pub model: Option<String>,
    pub tags: Vec<String>,
    pub fields: Vec<(String, String)>,
}

/// The mathematical value of an `Accumulator`.
pub struct AccumulatorView {
    pub deck: Option<Seq<char>>,
    pub model: Option<Seq<char>>,
    pub tags: Seq<Seq<char>>,
    pub fields: Seq<(Seq<char>, Seq<char>)>,
}

impl View for Accumulator {
    type V = AccumulatorView;

    open spec fn view(&self) -> AccumulatorView {
        AccumulatorView {
            deck: match self.deck {
                Some(d) => Some(d@),
                None => None,
            },
            model: match self.model {
                Some(m) => Some(m@),
                None => None,
            },
            tags: self.tags.deep_view(),
            fields: self.fields.deep_view(),
        }
    }
}

impl AccumulatorView {
    /// The accumulator before any command: nothing set.
    pub open spec fn initial() -> AccumulatorView {
        AccumulatorView { deck: None, model: None, tags: Seq::empty(), fields: Seq::empty() }
    }

    /// Nothing has been set since the last note was completed.
    pub open spec fn is_initial(self) -> bool {
        self.deck is None && self.model is None && self.tags.len() == 0 && self.fields.len() == 0
    }

    /// No tag and no field name occurs twice.
    pub open spec fn wf(self) -> bool {
        distinct_names(self.fields) && distinct_tags(self.tags)
    }

    /// A field of that name has been set.
    pub open spec fn has_field(self, name: Seq<char>) -> bool {
        exists|i: int| 0 <= i < self.fields.len() && (#[trigger] self.fields[i]).0 == name
    }
}

/// One transition of the builder: the accumulator after `command`, and the
/// note that the command completed, if any.
pub open spec fn apply(acc: AccumulatorView, command: CommandView) -> Result<
    (AccumulatorView, Option<NoteView>),
    ParseErrorView,
> {
    match command {
        CommandView::SetDeck(name) => Ok((AccumulatorView { deck: Some(name), ..acc }, None)),
        CommandView::SetModel(name) => Ok((AccumulatorView { model: Some(name), ..acc }, None)),
        CommandView::AddTag(tag) => if acc.tags.contains(tag) {
            Err(ParseErrorView::DuplicateTag(tag))
        } else {
            Ok((AccumulatorView { tags: acc.tags.push(tag), ..acc }, None))
        },
        CommandView::SetField(name, value) => if acc.has_field(name) {
            Err(ParseErrorView::DuplicateField(name))
        } else {
            Ok((AccumulatorView { fields: acc.fields.push((name, value)), ..acc }, None))
        },
        CommandView::EndNote => if acc.deck is None {
            Err(ParseErrorView::MissingDeck)
        } else if acc.model is None {
            Err(ParseErrorView::MissingModel)
        } else if acc.fields.len() == 0 {
            Err(ParseErrorView::EmptyFields)
        } else {
            Ok(
                (
                    AccumulatorView::initial(),
                    Some(
                        NoteView {
                            id: None,
                            deck: acc.deck->0,
                            model: acc.model->0,
                            fields: acc.fields,
                            tags: acc.tags,
                            question: None,
                        },
                    ),
                ),
            )
        },
    }
}

/// What parsing a document yields: the completed notes in order, and what the
/// accumulator held when the commands ran out.
pub struct DocumentView {
    pub notes: Seq<NoteView>,
    pub rest: AccumulatorView,
}

/// The builder run over `tokens` from accumulator `acc` with `notes` already
/// completed. The first failing command ends the run with its error.
pub open spec fn build(acc: AccumulatorView, notes: Seq<NoteView>, tokens: Seq<TokenView>) -> Result<
    DocumentView,
    ParseErrorView,
>
    decreases tokens.len(),
{
    if tokens.len() == 0 {
        Ok(DocumentView { notes, rest: acc })
    } else {
        match apply(acc, tokens[0].command) {
            Err(e) => Err(e),
            Ok((next, emitted)) => build(
                next,
                match emitted {
                    Some(note) => notes.push(note),
                    None => notes,
                },
                tokens.drop_first(),
            ),
        }
    }
}

/// The meaning of a document: its frame is checked, then the commands of its
/// body are applied in order of position.
pub open spec fn parse(content: Seq<char>, header: Seq<char>, footer: Seq<char>) -> Result<
    DocumentView,
    ParseErrorView,
> {
    match frame_body(content, header, footer) {
        Err(e) => Err(e),
        Ok(body) => build(AccumulatorView::initial(), Seq::empty(), token_stream(body)),
    }
}

/// A parsed document.
#[derive(Debug)]
pub struct Document {
    /// The completed notes, in the order of their `\next`.
    pub notes: Vec<Note>,
    /// What was set after the last `\next`: an unfinished note that is
    /// discarded.
    pub rest: Accumulator,
}

impl View for Document {
    type V = DocumentView;

    open spec fn view(&self) -> DocumentView {
        DocumentView { notes: self.notes.deep_view(), rest: self.rest@ }
    }
}

impl Document {
    /// Whether a note was left open at the end of the document.
    pub fn has_unfinished_note(&self) -> (r: bool)
        ensures
            r == !self@.rest.is_initial(),
    {
        self.rest.deck.is_some() || self.rest.model.is_some() || self.rest.tags.len() > 0
            || self.rest.fields.len() > 0
    }

    /// Whether the document completed no note at all.
    pub fn is_empty(&self) -> (r: bool)
        ensures
            r == (self@.notes.len() == 0),
    {
        self.notes.len() == 0
    }
}

/// Whether `tag` stands among `tags`.
fn has_tag(tags: &Vec<String>, tag: &String) -> (r: bool)
    ensures
        r == tags.deep_view().contains(tag@),
{
    let mut i: usize = 0;
    while i < tags.len()
        invariant
            i <= tags.len(),
            forall|k: int| 0 <= k < i ==> #[trigger] tags.deep_view()[k] != tag@,
        decreases tags.len() - i,
    {
        if tags[i] == *tag {
            assert(tags.deep_view()[i as int] == tag@);
            return true;
        }
        i += 1;
    }
    false
}

/// Whether a field called `name` stands among `fields`.
fn has_field(fields: &Vec<(String, String)>, name: &String) -> (r: bool)
    ensures
        r == exists|i: int| 0 <= i < fields.len() && (#[trigger] fields.deep_view()[i]).0 == name@,
{
    let mut i: usize = 0;
    while i < fields.len()
        invariant
            i <= fields.len(),
            forall|k: int| 0 <= k < i ==> (#[trigger] fields.deep_view()[k]).0 != name@,
        decreases fields.len() - i,
    {
        if fields[i].0 == *name {
            assert(fields.deep_view()[i as int].0 == name@);
            return true;
        }
        i += 1;
    }
    false
}

impl Accumulator {
    /// The accumulator before any command.
    pub fn new() -> (acc: Accumulator)
        ensures
            acc@ == AccumulatorView::initial(),
    {
        let acc = Accumulator { deck: None, model: None, tags: Vec::new(), fields: Vec::new() };
        assert(acc@.tags =~= Seq::empty());
        assert(acc@.fields =~= Seq::empty());
        acc
    }

    /// Applies one command: the accumulator after it, and the note that it
    /// completed, if any.
    pub fn apply(self, command: &Command) -> (r: Result<(Accumulator, Option<Note>), ParseError>)
        ensures
            match r {
                Ok((next, emitted)) => apply(self@, command@) == Ok::<
                    (AccumulatorView, Option<NoteView>),
                    ParseErrorView,
                >((next@, emitted.deep_view())),
                Err(e) => apply(self@, command@) == Err::<
                    (AccumulatorView, Option<NoteView>),
                    ParseErrorView,
                >(e@),
            },
    {
        let mut acc = self;
        let ghost before = acc@;
        match command {
            Command::SetDeck(name) => {
                acc.deck = Some(name.clone());
                Ok((acc, None))
            },
            Command::SetModel(name) => {
                acc.model = Some(name.clone());
                Ok((acc, None))
            },
            Command::AddTag(tag) => {
                if has_tag(&acc.tags, tag) {
                    Err(ParseError::DuplicateTag(tag.clone()))
                } else {
                    acc.tags.push(tag.clone());
                    assert(acc@.tags =~= before.tags.push(tag@));
                    Ok((acc, None))
                }
            },
            Command::SetField(name, value) => {
                if has_field(&acc.fields, name) {
                    Err(ParseError::DuplicateField(name.clone()))
                } else {
                    acc.fields.push((name.clone(), value.clone()));
                    assert(acc@.fields =~= before.fields.push((name@, value@)));
                    Ok((acc, None))
                }
            },
            Command::EndNote => {
                let Accumulator { deck, model, tags, fields } = acc;
                match deck {
                    None => Err(ParseError::MissingDeck),
                    Some(deck) => match model {
                        None => Err(ParseError::MissingModel),
                        Some(model) => {
                            if fields.len() == 0 {
                                Err(ParseError::EmptyFields)
                            } else {
                                let note = Note {
                                    id: None,
                                    deck,
                                    model,
                                    fields,
                                    tags,
                                    question: None,
                                };
                                Ok((Accumulator::new(), Some(note)))
                            }
                        },
                    },
                }
            },
        }
    }
}

/// Runs the builder over a token stream.
pub fn build_notes(tokens: &Vec<Token>) -> (r: Result<Document, ParseError>)
    ensures
        match r {
            Ok(document) => build(
                AccumulatorView::initial(),
                Seq::empty(),
                tokens.deep_view(),
            ) == Ok::<DocumentView, ParseErrorView>(document@),
            Err(e) => build(AccumulatorView::initial(), Seq::empty(), tokens.deep_view()) == Err::<
                DocumentView,
                ParseErrorView,
            >(e@),
        },
{
    let mut acc = Accumulator::new();
    let mut notes: Vec<Note> = Vec::new();
    let mut i: usize = 0;
    let ghost all = tokens.deep_view();
    assert(all.skip(0) == all);
    assert(notes.deep_view() =~= Seq::empty());
    while i < tokens.len()
        invariant
            i <= tokens.len(),
            all == tokens.deep_view(),
            build(acc@, notes.deep_view(), all.skip(i as int)) == build(
                AccumulatorView::initial(),
                Seq::empty(),
                all,
            ),
        decreases tokens.len() - i,
    {
        let ghost rest = all.skip(i as int);
        let ghost done = notes.deep_view();
        assert(rest[0] == tokens[i as int]@);
        assert(rest.drop_first() == all.skip(i + 1));
        match acc.apply(&tokens[i].command) {
            Err(e) => {
                return Err(e);
            },
            Ok((next, emitted)) => {
                acc = next;
                match emitted {
                    Some(note) => {
                        notes.push(note);
                        assert(notes.deep_view() =~= done.push(note@));
                    },
                    None => {},
                }
            },
        }
        i += 1;
    }
    Ok(Document { notes, rest: acc })
}

/// The first position at which `a` and `b` hold different characters;
/// `None` where one is a prefix of the other.
fn first_difference_of(a: &Vec<char>, b: &Vec<char>) -> (r: Option<usize>)
    ensures
        match r {
            Some(at) => first_difference(a@, b@) == Some(at as int) && at < a.len() && at < b.len(),
            None => first_difference(a@, b@) is None,
        },
{
    let mut i: usize = 0;
    while i < a.len() && i < b.len()
        invariant
            i <= a.len(),
            i <= b.len(),
            forall|k: int| 0 <= k < i ==> a@[k] == b@[k],
        decreases a.len() - i,
    {
        if a[i] != b[i] {
            proof {
                lemma_common_prefix_unique(a@, b@, i as int);
            }
            return Some(i);
        }
        i += 1;
    }
    proof {
        lemma_common_prefix_unique(a@, b@, i as int);
    }
    None
}

/// The first character index at which `a` and `b` differ; `None` where one
/// of them is a prefix of the other.
pub fn get_longest_common_prefix(a: &str, b: &str) -> (r: Option<usize>)
    ensures
        match r {
            Some(at) => {
                &&& first_difference(a@, b@) == Some(at as int)
                &&& at < a@.len()
                &&& at < b@.len()
                &&& a@[at as int] != b@[at as int]
                &&& forall|k: int| 0 <= k < at ==> a@[k] == b@[k]
            },
            None => {
                &&& first_difference(a@, b@) is None
                &&& forall|k: int| 0 <= k < a@.len() && k < b@.len() ==> a@[k] == b@[k]
            },
        },
{
    proof {
        lemma_common_prefix(a@, b@);
    }
    let x = to_chars(a);
    let y = to_chars(b);
    first_difference_of(&x, &y)
}

/// The line of `text` that holds position `pos`.
fn line_of(text: &Vec<char>, pos: usize) -> (r: String)
    ensures
        r@ == line_at(text@, pos as int),
{
    if pos >= text.len() {
        return String::new();
    }
    let mut start: usize = pos;
    while start > 0 && text[start - 1] != '\n'
        invariant
            start <= pos < text.len(),
            line_start(text@, start as int) == line_start(text@, pos as int),
        decreases start,
    {
        start -= 1;
    }
    let feed: Vec<char> = vec!['\n'];
    assert(feed@ == line_feed());
    let stop = find_exec(text, pos, &feed);
    let end = if stop > start && text[stop - 1] == '\r' {
        stop - 1
    } else {
        stop
    };
    proof {
        let line = text@.subrange(start as int, stop as int);
        if stop > start {
            assert(line.last() == text@[stop - 1]);
            assert(line.drop_last() == text@.subrange(start as int, stop - 1));
        }
    }
    to_string(text, start, end)
}

/// The line of `text` that holds the character position `pos`, without its
/// line terminator; empty where `text` has no such position.
pub fn get_line_with_pos(text: &str, pos: usize) -> (r: String)
    ensures
        r@ == line_at(text@, pos as int),
{
    let chars = to_chars(text);
    line_of(&chars, pos)
}

/// A copy of the characters `text[from..to]`.
fn copy_range(text: &Vec<char>, from: usize, to: usize) -> (out: Vec<char>)
    requires
        from <= to <= text.len(),
    ensures
        out@ == text@.subrange(from as int, to as int),
{
    let mut out: Vec<char> = Vec::new();
    let mut i: usize = from;
    while i < to
        invariant
            from <= i <= to <= text.len(),
            out@ == text@.subrange(from as int, i as int),
        decreases to - i,
    {
        out.push(text[i]);
        i += 1;
    }
    out
}

/// What a file without the required header reports.
fn describe_header_mismatch(found: &Vec<char>, header: &Vec<char>) -> (r: HeaderMismatch)
    ensures
        r@ == header_mismatch(found@, header@),
{
    let shown = if found.len() < EXCERPT {
        found.len()
    } else {
        EXCERPT
    };
    let found_start = to_string(found, 0, shown);
    assert(found@.subrange(0, shown as int) == found@.take(shown as int));
    let difference = match first_difference_of(found, header) {
        Some(at) => Some(
            Difference {
                position: at,
                required: header[at],
                found: found[at],
                required_line: line_of(header, at),
                found_line: line_of(found, at),
            },
        ),
        None => None,
    };
    HeaderMismatch { found_start, required_len: header.len(), found_len: found.len(), difference }
}

/// The body of a document, or the framing error.
fn body_of(content: &Vec<char>, header: &Vec<char>, footer: &Vec<char>) -> (r: Result<
    Vec<char>,
    ParseError,
>)
    ensures
        match r {
            Ok(body) => frame_body(content@, header@, footer@) == Ok::<Seq<char>, ParseErrorView>(
                body@,
            ),
            Err(e) => frame_body(content@, header@, footer@) == Err::<Seq<char>, ParseErrorView>(
                e@,
            ),
        },
{
    let (lo, hi) = trim_bounds(content);
    let trimmed = copy_range(content, lo, hi);
    if !occurs_at_exec(&trimmed, 0, header) {
        return Err(ParseError::MissingHeader(describe_header_mismatch(&trimmed, header)));
    }
    let rest = copy_range(&trimmed, header.len(), trimmed.len());
    assert(rest@ == trimmed@.skip(header.len() as int));
    if rest.len() < footer.len() || !occurs_at_exec(&rest, rest.len() - footer.len(), footer) {
        let from = if rest.len() < EXCERPT {
            0
        } else {
            rest.len() - EXCERPT
        };
        let shown = to_string(&rest, from, rest.len());
        assert(rest@.subrange(from as int, rest.len() as int) == rest@.skip(from as int));
        return Err(ParseError::MissingFooter(shown));
    }
    let body = copy_range(&rest, 0, rest.len() - footer.len());
    assert(rest@.subrange(0, rest.len() - footer.len()) == rest@.take(rest.len() - footer.len()));
    Ok(body)
}

/// Parses a document framed by `header` and `footer`.
pub fn parse_document(content: &str, header: &str, footer: &str) -> (r: Result<
    Document,
    ParseError,
>)
    ensures
        match r {
            Ok(document) => parse(content@, header@, footer@) == Ok::<DocumentView, ParseErrorView>(
                document@,
            ) && forall|k: int|
                0 <= k < document@.notes.len() ==> (#[trigger] document@.notes[k]).complete(),
            Err(e) => parse(content@, header@, footer@) == Err::<DocumentView, ParseErrorView>(e@),
        },
{
    proof {
        match frame_body(content@, header@, footer@) {
            Ok(body) => {
                if build(AccumulatorView::initial(), Seq::empty(), token_stream(body)) is Ok {
                    law_completed_notes_are_complete(
                        AccumulatorView::initial(),
                        Seq::empty(),
                        token_stream(body),
                    );
                }
            },
            Err(_) => {},
        }
    }
    let chars = to_chars(content);
    let head = to_chars(header);
    let foot = to_chars(footer);
    match body_of(&chars, &head, &foot) {
        Err(e) => Err(e),
        Ok(body) => {
            let table = PatternTable::new();
            let tokens = table.tokens(&body);
            build_notes(&tokens)
        },
    }
}

/// The notes of a document framed by `HEADER` and `FOOTER`, in order.
pub fn get_content(content: String) -> (r: Result<Vec<Note>, ParseError>)
    ensures
        match r {
            Ok(notes) => parse(content@, HEADER@, FOOTER@) matches Ok(document)
                && notes.deep_view() == document.notes && forall|k: int|
                0 <= k < notes.len() ==> (#[trigger] notes[k])@.complete(),
            Err(e) => parse(content@, HEADER@, FOOTER@) == Err::<DocumentView, ParseErrorView>(e@),
        },
{
    match parse_document(content.as_str(), HEADER, FOOTER) {
        Ok(document) => {
            assert forall|k: int| 0 <= k < document.notes.len() implies (
            #[trigger] document.notes[k])@.complete() by {
                assert(document@.notes[k] == document.notes[k]@);
            }
            Ok(document.notes)
        },
        Err(e) => Err(e),
    }
}

/// The builder never reports a framing error.
pub proof fn lemma_build_errors_are_structural(
    acc: AccumulatorView,
    notes: Seq<NoteView>,
    tokens: Seq<TokenView>,
)
    ensures
        build(acc, notes, tokens) matches Err(e) ==> !e.is_framing(),
    decreases tokens.len(),
{
    if tokens.len() > 0 {
        match apply(acc, tokens[0].command) {
            Err(_) => {},
            Ok((next, emitted)) => {
                lemma_build_errors_are_structural(
                    next,
                    match emitted {
                        Some(note) => notes.push(note),
                        None => notes,
                    },
                    tokens.drop_first(),
                );
            },
        }
    }
}

/// A document that does not start with the required header, surrounding
/// whitespace aside, fails with the framing error `MissingHeader`, whatever
/// its body holds.
pub proof fn law_missing_header_is_framing_error(
    content: Seq<char>,
    header: Seq<char>,
    footer: Seq<char>,
)
    requires
        !occurs_at(trim(content), 0, header),
    ensures
        parse(content, header, footer) matches Err(e) && e is MissingHeader && e.is_framing(),
{
}

/// Parsing fails with a framing error exactly when the frame is wrong: a
/// document with the right frame fails on a note or not at all.
pub proof fn law_framing_error_iff_bad_frame(
    content: Seq<char>,
    header: Seq<char>,
    footer: Seq<char>,
)
    ensures
        (parse(content, header, footer) matches Err(e) && e.is_framing()) <==> frame_body(
            content,
            header,
            footer,
        ) is Err,
{
    match frame_body(content, header, footer) {
        Err(_) => {},
        Ok(body) => {
            lemma_build_errors_are_structural(
                AccumulatorView::initial(),
                Seq::empty(),
                token_stream(body),
            );
        },
    }
}

/// Running the builder over two streams in a row is running it over the
/// first and, where that succeeds, over the second from where the first
/// ended.
pub proof fn lemma_build_concat(
    acc: AccumulatorView,
    notes: Seq<NoteView>,
    first: Seq<TokenView>,
    second: Seq<TokenView>,
)
    ensures
        build(acc, notes, first + second) == match build(acc, notes, first) {
            Ok(document) => build(document.rest, document.notes, second),
            Err(e) => Err(e),
        },
    decreases first.len(),
{
    if first.len() == 0 {
        assert(first + second == second);
    } else {
        assert((first + second)[0] == first[0]);
        assert((first + second).drop_first() == first.drop_first() + second);
        match apply(acc, first[0].command) {
            Err(_) => {},
            Ok((next, emitted)) => {
                lemma_build_concat(
                    next,
                    match emitted {
                        Some(note) => notes.push(note),
                        None => notes,
                    },
                    first.drop_first(),
                    second,
                );
            },
        }
    }
}

/// Until a note is ended, a tag that was added stays, and the fields change
/// only by a command that sets a field.
pub proof fn lemma_open_note_keeps(
    acc: AccumulatorView,
    notes: Seq<NoteView>,
    tokens: Seq<TokenView>,
)
    requires
        build(acc, notes, tokens) is Ok,
        forall|k: int| 0 <= k < tokens.len() ==> !((#[trigger] tokens[k]).command is EndNote),
    ensures
        forall|tag: Seq<char>|
            acc.tags.contains(tag) ==> #[trigger] build(acc, notes, tokens)->Ok_0.rest.tags.contains(
                tag,
            ),
        (forall|k: int| 0 <= k < tokens.len() ==> !((#[trigger] tokens[k]).command is SetField))
            ==> build(acc, notes, tokens)->Ok_0.rest.fields == acc.fields,
    decreases tokens.len(),
{
    if tokens.len() > 0 {
        assert(!(tokens[0].command is EndNote));
        match apply(acc, tokens[0].command) {
            Err(_) => {},
            Ok((next, emitted)) => {
                assert(emitted is None);
                assert forall|k: int| 0 <= k < tokens.drop_first().len() implies !((
                #[trigger] tokens.drop_first()[k]).command is EndNote) by {
                    assert(tokens.drop_first()[k] == tokens[k + 1]);
                }
                lemma_open_note_keeps(next, notes, tokens.drop_first());
                let end = build(acc, notes, tokens)->Ok_0.rest;
                assert forall|tag: Seq<char>| acc.tags.contains(tag) implies end.tags.contains(
                    tag,
                ) by {
                    let i = choose|i: int| 0 <= i < acc.tags.len() && acc.tags[i] == tag;
                    if next.tags != acc.tags {
                        assert(next.tags[i] == tag);
                    }
                    assert(next.tags.contains(tag));
                }
                if forall|k: int|
                    0 <= k < tokens.len() ==> !((#[trigger] tokens[k]).command is SetField) {
                    assert(!(tokens[0].command is SetField));
                    assert forall|k: int| 0 <= k < tokens.drop_first().len() implies !((
                    #[trigger] tokens.drop_first()[k]).command is SetField) by {
                        assert(tokens.drop_first()[k] == tokens[k + 1]);
                    }
                }
            },
        }
    }
}

/// A note in which the same tag is added twice fails with `DuplicateTag`:
/// where tokens `i` and `j` add the same tag, no note ends between them, and
/// nothing fails before token `j`, the run fails at token `j`.
pub proof fn law_duplicate_tag(
    acc: AccumulatorView,
    notes: Seq<NoteView>,
    tokens: Seq<TokenView>,
    i: int,
    j: int,
    tag: Seq<char>,
)
    requires
        0 <= i < j < tokens.len(),
        tokens[i].command == CommandView::AddTag(tag),
        tokens[j].command == CommandView::AddTag(tag),
        forall|k: int| i < k < j ==> !((#[trigger] tokens[k]).command is EndNote),
        build(acc, notes, tokens.take(j)) is Ok,
    ensures
        build(acc, notes, tokens) == Err::<DocumentView, ParseErrorView>(
            ParseErrorView::DuplicateTag(tag),
        ),
{
    let head = tokens.take(i);
    let one = seq![tokens[i]];
    let middle = tokens.subrange(i + 1, j);
    let tail = tokens.skip(j);
    assert(tokens.take(j) == (head + one) + middle);
    assert(tokens == tokens.take(j) + tail);
    lemma_build_concat(acc, notes, head + one, middle);
    lemma_build_concat(acc, notes, head, one);
    lemma_build_concat(acc, notes, tokens.take(j), tail);
    let d0 = build(acc, notes, head)->Ok_0;
    assert(one[0] == tokens[i]);
    assert(one.drop_first() == Seq::<TokenView>::empty());
    let d1 = build(acc, notes, head + one)->Ok_0;
    reveal_with_fuel(build, 3);
    assert(d1.rest.tags == d0.rest.tags.push(tag));
    assert(d1.rest.tags[d0.rest.tags.len() as int] == tag);
    assert(d1.rest.tags.contains(tag));
    assert forall|k: int| 0 <= k < middle.len() implies !((#[trigger] middle[k]).command is EndNote) by {
        assert(middle[k] == tokens[i + 1 + k]);
    }
    lemma_open_note_keeps(d1.rest, d1.notes, middle);
    let d2 = build(acc, notes, tokens.take(j))->Ok_0;
    assert(d2.rest.tags.contains(tag));
    assert(tail[0] == tokens[j]);
}

/// A note that is ended without a field fails with `EmptyFields`, provided
/// that its deck and its model are selected: where no field is set between a
/// point at which the accumulator holds no field and the end of the note,
/// the run fails at that end.
pub proof fn law_end_without_fields(
    acc: AccumulatorView,
    notes: Seq<NoteView>,
    tokens: Seq<TokenView>,
    i: int,
    j: int,
)
    requires
        0 <= i <= j < tokens.len(),
        build(acc, notes, tokens.take(i)) matches Ok(d) && d.rest.fields.len() == 0,
        forall|k: int|
            i <= k < j ==> !((#[trigger] tokens[k]).command is EndNote) && !(tokens[k].command
                is SetField),
        tokens[j].command is EndNote,
        build(acc, notes, tokens.take(j)) matches Ok(d) && d.rest.deck is Some && d.rest.model
            is Some,
    ensures
        build(acc, notes, tokens) == Err::<DocumentView, ParseErrorView>(
            ParseErrorView::EmptyFields,
        ),
{
    let head = tokens.take(i);
    let middle = tokens.subrange(i, j);
    let tail = tokens.skip(j);
    assert(tokens.take(j) == head + middle);
    assert(tokens == tokens.take(j) + tail);
    lemma_build_concat(acc, notes, head, middle);
    lemma_build_concat(acc, notes, tokens.take(j), tail);
    let d0 = build(acc, notes, head)->Ok_0;
    assert forall|k: int| 0 <= k < middle.len() implies !((#[trigger] middle[k]).command is EndNote)
        && !(middle[k].command is SetField) by {
        assert(middle[k] == tokens[i + k]);
    }
    lemma_open_note_keeps(d0.rest, d0.notes, middle);
    assert(tail[0] == tokens[j]);
}

/// Ending a note on an accumulator without deck fails with `MissingDeck`,
/// without model with `MissingModel`, without fields with `EmptyFields`, in
/// this order of precedence; otherwise the note is completed and the
/// accumulator is empty again.
pub proof fn law_end_note(acc: AccumulatorView)
    ensures
        acc.deck is None ==> apply(acc, CommandView::EndNote) == Err::<
            (AccumulatorView, Option<NoteView>),
            ParseErrorView,
        >(ParseErrorView::MissingDeck),
        acc.deck is Some && acc.model is None ==> apply(acc, CommandView::EndNote) == Err::<
            (AccumulatorView, Option<NoteView>),
            ParseErrorView,
        >(ParseErrorView::MissingModel),
        acc.deck is Some && acc.model is Some && acc.fields.len() == 0 ==> apply(
            acc,
            CommandView::EndNote,
        ) == Err::<(AccumulatorView, Option<NoteView>), ParseErrorView>(
            ParseErrorView::EmptyFields,
        ),
        acc.deck is Some && acc.model is Some && acc.fields.len() > 0 ==> (apply(
            acc,
            CommandView::EndNote,
        ) matches Ok((next, emitted)) && next.is_initial() && emitted is Some),
{
}

/// Every note that the builder completes has at least one field, no field
/// name and no tag twice, and neither identifier nor question.
pub proof fn law_completed_notes_are_complete(
    acc: AccumulatorView,
    notes: Seq<NoteView>,
    tokens: Seq<TokenView>,
)
    requires
        acc.wf(),
        forall|k: int| 0 <= k < notes.len() ==> (#[trigger] notes[k]).complete(),
        build(acc, notes, tokens) is Ok,
    ensures
        build(acc, notes, tokens)->Ok_0.rest.wf(),
        forall|k: int|
            0 <= k < build(acc, notes, tokens)->Ok_0.notes.len() ==> (#[trigger] build(
                acc,
                notes,
                tokens,
            )->Ok_0.notes[k]).complete(),
    decreases tokens.len(),
{
    if tokens.len() > 0 {
        match apply(acc, tokens[0].command) {
            Err(_) => {},
            Ok((next, emitted)) => {
                let more = match emitted {
                    Some(note) => notes.push(note),
                    None => notes,
                };
                match tokens[0].command {
                    CommandView::AddTag(tag) => {
                        assert forall|a: int, b: int| 0 <= a < b < next.tags.len() implies (
                        #[trigger] next.tags[a]) != (#[trigger] next.tags[b]) by {
                            if b == acc.tags.len() {
                                assert(acc.tags[a] == next.tags[a]);
                            }
                        }
                    },
                    CommandView::SetField(name, value) => {
                        assert forall|a: int, b: int| 0 <= a < b < next.fields.len() implies (
                        #[trigger] next.fields[a]).0 != (#[trigger] next.fields[b]).0 by {
                            if b == acc.fields.len() {
                                assert(acc.fields[a] == next.fields[a]);
                            }
                        }
                    },
                    _ => {},
                }
                assert(next.wf());
                assert forall|k: int| 0 <= k < more.len() implies (#[trigger] more[k]).complete() by {
                    if k < notes.len() {
                        assert(more[k] == notes[k]);
                    }
                }
                law_completed_notes_are_complete(next, more, tokens.drop_first());
            },
        }
    }
}

/// A document with the right frame in whose body the same tag is added
/// twice to one note fails with `DuplicateTag`, unless it fails before the
/// second of the two commands.
pub proof fn law_document_with_duplicate_tag(
    content: Seq<char>,
    header: Seq<char>,
    footer: Seq<char>,
    i: int,
    j: int,
    tag: Seq<char>,
)
    requires
        frame_body(content, header, footer) is Ok,
        0 <= i < j < token_stream(frame_body(content, header, footer)->Ok_0).len(),
        token_stream(frame_body(content, header, footer)->Ok_0)[i].command == CommandView::AddTag(
            tag,
        ),
        token_stream(frame_body(content, header, footer)->Ok_0)[j].command == CommandView::AddTag(
            tag,
        ),
        forall|k: int|
            i < k < j ==> !((#[trigger] token_stream(
                frame_body(content, header, footer)->Ok_0,
            )[k]).command is EndNote),
        build(
            AccumulatorView::initial(),
            Seq::empty(),
            token_stream(frame_body(content, header, footer)->Ok_0).take(j),
        ) is Ok,
    ensures
        parse(content, header, footer) == Err::<DocumentView, ParseErrorView>(
            ParseErrorView::DuplicateTag(tag),
        ),
{
    law_duplicate_tag(
        AccumulatorView::initial(),
        Seq::empty(),
        token_stream(frame_body(content, header, footer)->Ok_0),
        i,
        j,
        tag,
    );
}

} // verus!
