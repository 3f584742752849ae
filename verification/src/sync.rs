//! The synchronisation pass.
//!
//! A pass takes the text of a document, the decks and models that the remote
//! store knows, and the notes that it is believed to hold. The document is
//! parsed, every note is checked against decks and models before anything is
//! created, the surviving notes are prepared, and each one that is not
//! equivalent to a known note is proposed for creation. The caller performs
//! the creation and reports the answer; the library decides what comes next.
//! A note that the store created joins the known notes at once, under its
//! identifier; a note that the store refused does not.

use crate::api::{creation_request, request_for};
use crate::note::{distinct_names, equivalent, Note, NoteView};
use crate::parse_file::{parse, parse_document, ParseError, ParseErrorView, FOOTER, HEADER};
use vstd::prelude::*;

verus! {

/// A model of the remote store: its name and the names of its fields.
#[derive(Debug)]
pub struct Model {
    pub name: String,
    pub field_names: Vec<String>,
}

/// The mathematical value of a `Model`.
pub struct ModelView {
    pub name: Seq<char>,
    pub field_names: Seq<Seq<char>>,
}

impl View for Model {
    type V = ModelView;

    open spec fn view(&self) -> ModelView {
        ModelView { name: self.name@, field_names: self.field_names.deep_view() }
    }
}

impl DeepView for Model {
    type V = ModelView;

    open spec fn deep_view(&self) -> ModelView {
        self@
    }
}

/// The tags that a pass adds to every note.
#[derive(Debug)]
pub struct TagOptions {
    /// Add the tag `generated`.
    pub add_generated: bool,
    /// Add this tag, which names the day of the pass.
    pub add_generation_date: Option<String>,
}

/// The mathematical value of `TagOptions`.
pub struct TagOptionsView {
    pub add_generated: bool,
    pub add_generation_date: Option<Seq<char>>,
}

impl View for TagOptions {
    type V = TagOptionsView;

    open spec fn view(&self) -> TagOptionsView {
        TagOptionsView {
            add_generated: self.add_generated,
            add_generation_date: match self.add_generation_date {
                Some(d) => Some(d@),
                None => None,
            },
        }
    }
}

/// What the session knows of the remote store.
#[derive(Debug)]
pub struct State {
    pub deck_names: Vec<String>,
    pub models: Vec<Model>,
    /// The notes that the store is believed to hold.
    pub added_notes: Vec<Note>,
    /// The fingerprint of the text of the last pass.
    pub last_fingerprint: Option<u64>,
}

/// The mathematical value of a `State`.
pub struct StateView {
    pub deck_names: Seq<Seq<char>>,
    pub models: Seq<ModelView>,
    pub added_notes: Seq<NoteView>,
    pub last_fingerprint: Option<u64>,
}

impl View for State {
    type V = StateView;

    open spec fn view(&self) -> StateView {
        StateView {
            deck_names: self.deck_names.deep_view(),
            models: self.models.deep_view(),
            added_notes: self.added_notes.deep_view(),
            last_fingerprint: self.last_fingerprint,
        }
    }
}

/// Why a document was refused as a whole.
#[derive(Debug)]
pub enum Rejection {
    /// A note names a deck that the store does not have.
    UnknownDeck(String),
    /// A note names a model that the store does not have.
    UnknownModel(String),
    /// A note sets a field that its model does not have.
    UnknownField { model: String, field: String },
}

/// The mathematical value of a `Rejection`.
pub enum RejectionView {
    UnknownDeck(Seq<char>),
    UnknownModel(Seq<char>),
    UnknownField { model: Seq<char>, field: Seq<char> },
}

impl View for Rejection {
    type V = RejectionView;

    open spec fn view(&self) -> RejectionView {
        match self {
            Rejection::UnknownDeck(deck) => RejectionView::UnknownDeck(deck@),
            Rejection::UnknownModel(model) => RejectionView::UnknownModel(model@),
            Rejection::UnknownField { model, field } => RejectionView::UnknownField {
                model: model@,
                field: field@,
            },
        }
    }
}

/// Why a pass ended before any note was proposed.
#[derive(Debug)]
pub enum PassError {
    /// The document could not be parsed.
    Parse(ParseError),
    /// A note of the document does not fit the store.
    Rejected(Rejection),
}

/// The mathematical value of a `PassError`.
pub enum PassErrorView {
    Parse(ParseErrorView),
    Rejected(RejectionView),
}

impl View for PassError {
    type V = PassErrorView;

    open spec fn view(&self) -> PassErrorView {
        match self {
            PassError::Parse(e) => PassErrorView::Parse(e@),
            PassError::Rejected(r) => PassErrorView::Rejected(r@),
        }
    }
}

/// The model called `name`; of several, the last.
pub open spec fn find_model(models: Seq<ModelView>, name: Seq<char>) -> Option<ModelView>
    decreases models.len(),
{
    if models.len() == 0 {
        None
    } else if models.last().name == name {
        Some(models.last())
    } else {
        find_model(models.drop_last(), name)
    }
}

/// The name of the first field that is not among `allowed`.
pub open spec fn unknown_field(fields: Seq<(Seq<char>, Seq<char>)>, allowed: Seq<Seq<char>>) -> Option<
    Seq<char>,
>
    decreases fields.len(),
{
    if fields.len() == 0 {
        None
    } else if !allowed.contains(fields[0].0) {
        Some(fields[0].0)
    } else {
        unknown_field(fields.drop_first(), allowed)
    }
}

/// Why `note` does not fit the store, if it does not: its deck is checked
/// first, then its model, then its field names in order.
pub open spec fn check_note(note: NoteView, decks: Seq<Seq<char>>, models: Seq<ModelView>) -> Option<
    RejectionView,
> {
    if !decks.contains(note.deck) {
        Some(RejectionView::UnknownDeck(note.deck))
    } else {
        match find_model(models, note.model) {
            None => Some(RejectionView::UnknownModel(note.model)),
            Some(model) => match unknown_field(note.fields, model.field_names) {
                Some(field) => Some(RejectionView::UnknownField { model: note.model, field }),
                None => None,
            },
        }
    }
}

/// The rejection of the first note, in order, that does not fit the store.
pub open spec fn first_rejection(
    notes: Seq<NoteView>,
    decks: Seq<Seq<char>>,
    models: Seq<ModelView>,
) -> Option<RejectionView>
    decreases notes.len(),
{
    if notes.len() == 0 {
        None
    } else {
        match check_note(notes[0], decks, models) {
            Some(rejection) => Some(rejection),
            None => first_rejection(notes.drop_first(), decks, models),
        }
    }
}

/// A field value between the markers that tell the store to take it as
/// markup.
pub open spec fn wrapped(value: Seq<char>) -> Seq<char> {
    "[latex]"@ + value + "[/latex]"@
}

/// The fields with every value wrapped.
pub open spec fn wrap_fields(fields: Seq<(Seq<char>, Seq<char>)>) -> Seq<(Seq<char>, Seq<char>)> {
    Seq::new(fields.len(), |i: int| (fields[i].0, wrapped(fields[i].1)))
}

/// The tags followed by those that the options add.
pub open spec fn augmented_tags(tags: Seq<Seq<char>>, options: TagOptionsView) -> Seq<Seq<char>> {
    let generated = if options.add_generated {
        tags.push("generated"@)
    } else {
        tags
    };
    match options.add_generation_date {
        Some(date) => generated.push(date),
        None => generated,
    }
}

/// A parsed note as it is compared and sent: values wrapped, tags augmented.
pub open spec fn prepared(note: NoteView, options: TagOptionsView) -> NoteView {
    NoteView {
        fields: wrap_fields(note.fields),
        tags: augmented_tags(note.tags, options),
        ..note
    }
}

/// Preparing a note leaves its field names as they are: no name occurs twice
/// in the prepared note where none does in the note.
pub proof fn law_prepared_keeps_names(note: NoteView, options: TagOptionsView)
    ensures
        prepared(note, options).fields.len() == note.fields.len(),
        forall|i: int|
            0 <= i < note.fields.len() ==> (#[trigger] prepared(note, options).fields[i]).0
                == note.fields[i].0,
        distinct_names(note.fields) ==> distinct_names(prepared(note, options).fields),
{
    let after = prepared(note, options).fields;
    if distinct_names(note.fields) {
        assert forall|i: int, j: int| 0 <= i < j < after.len() implies (#[trigger] after[i]).0 != (
        #[trigger] after[j]).0 by {
            assert(after[i].0 == note.fields[i].0);
            assert(after[j].0 == note.fields[j].0);
        }
    }
}

/// The candidates of a pass.
pub struct PlanView {
    pub candidates: Seq<NoteView>,
    /// A note was left open at the end of the document and is discarded.
    pub unfinished: bool,
}

/// The candidates of a pass over `content`: the notes of the document,
/// prepared, provided that the document parses and every note fits the store.
pub open spec fn plan(
    content: Seq<char>,
    decks: Seq<Seq<char>>,
    models: Seq<ModelView>,
    options: TagOptionsView,
) -> Result<PlanView, PassErrorView> {
    match parse(content, HEADER@, FOOTER@) {
        Err(e) => Err(PassErrorView::Parse(e)),
        Ok(document) => match first_rejection(document.notes, decks, models) {
            Some(rejection) => Err(PassErrorView::Rejected(rejection)),
            None => Ok(
                PlanView {
                    candidates: Seq::new(
                        document.notes.len(),
                        |i: int| prepared(document.notes[i], options),
                    ),
                    unfinished: !document.rest.is_initial(),
                },
            ),
        },
    }
}

/// A known note is equivalent to `note`.
pub open spec fn is_known(known: Seq<NoteView>, note: NoteView) -> bool {
    exists|i: int| 0 <= i < known.len() && equivalent(#[trigger] known[i], note)
}

/// The index of the first candidate at or after `from` that is not known;
/// the number of candidates where all of them are.
pub open spec fn first_new(known: Seq<NoteView>, candidates: Seq<NoteView>, from: int) -> int
    decreases candidates.len() - from,
{
    if from < 0 || from >= candidates.len() {
        candidates.len() as int
    } else if !is_known(known, candidates[from]) {
        from
    } else {
        first_new(known, candidates, from + 1)
    }
}

/// `note` under the identifier that the store gave it.
pub open spec fn recorded(note: NoteView, id: Option<usize>) -> NoteView {
    NoteView { id, ..note }
}

/// The known notes once the store has answered the request for `note`: the
/// note joins them, under its identifier, where the store created it; they
/// stay as they are where the store refused it.
pub open spec fn answered(known: Seq<NoteView>, note: NoteView, id: Option<usize>) -> Seq<
    NoteView,
> {
    if id is Some {
        known.push(recorded(note, id))
    } else {
        known
    }
}

/// What `fasthash::metro::hash64` returns on the UTF-8 bytes of `text`. The
/// crate computes one of two hash functions, fixed when it is built; either
/// is a function of the bytes alone.
pub uninterp spec fn metro_hash64(text: Seq<char>) -> u64;

/// `fasthash::metro::hash64` on the bytes of `content`: the result is the
/// hash of the text, the same for the same text. Nothing else is stated of
/// the value.
#[verifier::external_body]
fn fingerprint(content: &str) -> (r: u64)
    ensures
        r == metro_hash64(content@),
{
    fasthash::metro::hash64(content)
}

/// Whether `name` stands among `names`.
pub fn has_name(names: &Vec<String>, name: &String) -> (r: bool)
    ensures
        r == names.deep_view().contains(name@),
{
    let mut i: usize = 0;
    while i < names.len()
        invariant
            i <= names.len(),
            forall|k: int| 0 <= k < i ==> #[trigger] names.deep_view()[k] != name@,
        decreases names.len() - i,
    {
        if names[i] == *name {
            assert(names.deep_view()[i as int] == name@);
            return true;
        }
        i += 1;
    }
    false
}

/// A field value between the markers that tell the store to take it as
/// markup.
pub fn fmt_content(content: &String) -> (r: String)
    ensures
        r@ == wrapped(content@),
{
    let mut s = String::from_str("[latex]");
    s.append(content.as_str());
    s.append("[/latex]");
    s
}

/// The models of the store: each name with the field names listed for it.
/// Where one list is longer than the other, what has no partner is dropped.
pub fn load_models(names: Vec<String>, field_names: Vec<Vec<String>>) -> (models: Vec<Model>)
    ensures
        models.len() == if names.len() <= field_names.len() {
            names.len()
        } else {
            field_names.len()
        },
        forall|i: int|
            0 <= i < models.len() ==> (#[trigger] models[i])@ == (ModelView {
                name: names[i]@,
                field_names: field_names[i].deep_view(),
            }),
{
    let mut models: Vec<Model> = Vec::new();
    let mut i: usize = 0;
    while i < names.len() && i < field_names.len()
        invariant
            i <= names.len(),
            i <= field_names.len(),
            models.len() == i,
            forall|k: int|
                0 <= k < i ==> (#[trigger] models[k])@ == (ModelView {
                    name: names[k]@,
                    field_names: field_names[k].deep_view(),
                }),
        decreases names.len() - i,
    {
        let mut fields: Vec<String> = Vec::new();
        let mut j: usize = 0;
        while j < field_names[i].len()
            invariant
                i < field_names.len(),
                j <= field_names[i as int].len(),
                fields.len() == j,
                forall|k: int| 0 <= k < j ==> (#[trigger] fields[k])@ == field_names[i as int][k]@,
            decreases field_names[i as int].len() - j,
        {
            fields.push(field_names[i][j].clone());
            j += 1;
        }
        assert(fields.deep_view() =~= field_names[i as int].deep_view());
        models.push(Model { name: names[i].clone(), field_names: fields });
        i += 1;
    }
    models
}

/// The model called `name`; of several, the last.
fn lookup_model<'a>(models: &'a Vec<Model>, name: &String) -> (r: Option<&'a Model>)
    ensures
        match r {
            Some(model) => find_model(models.deep_view(), name@) == Some(model@),
            None => find_model(models.deep_view(), name@) is None,
        },
{
    let mut i: usize = models.len();
    let ghost all = models.deep_view();
    assert(all.take(i as int) == all);
    while i > 0
        invariant
            i <= models.len(),
            all == models.deep_view(),
            find_model(all, name@) == find_model(all.take(i as int), name@),
        decreases i,
    {
        let ghost upto = all.take(i as int);
        assert(upto.last() == models[i - 1]@);
        assert(upto.drop_last() == all.take(i - 1));
        if models[i - 1].name == *name {
            return Some(&models[i - 1]);
        }
        i -= 1;
    }
    None
}

/// The name of the first field that is not among `allowed`.
fn lookup_unknown_field<'a>(fields: &'a Vec<(String, String)>, allowed: &Vec<String>) -> (r: Option<
    &'a String,
>)
    ensures
        match r {
            Some(name) => unknown_field(fields.deep_view(), allowed.deep_view()) == Some(name@),
            None => unknown_field(fields.deep_view(), allowed.deep_view()) is None,
        },
{
    let mut i: usize = 0;
    let ghost all = fields.deep_view();
    assert(all.skip(0) == all);
    while i < fields.len()
        invariant
            i <= fields.len(),
            all == fields.deep_view(),
            unknown_field(all, allowed.deep_view()) == unknown_field(
                all.skip(i as int),
                allowed.deep_view(),
            ),
        decreases fields.len() - i,
    {
        let ghost rest = all.skip(i as int);
        assert(rest[0] == fields[i as int].deep_view());
        assert(rest.drop_first() == all.skip(i + 1));
        if !has_name(allowed, &fields[i].0) {
            return Some(&fields[i].0);
        }
        i += 1;
    }
    None
}

/// The first note, in order, that does not fit decks and models.
pub fn validate(notes: &Vec<Note>, deck_names: &Vec<String>, models: &Vec<Model>) -> (r: Result<
    (),
    Rejection,
>)
    ensures
        match r {
            Ok(_) => first_rejection(
                notes.deep_view(),
                deck_names.deep_view(),
                models.deep_view(),
            ) is None,
            Err(rejection) => first_rejection(
                notes.deep_view(),
                deck_names.deep_view(),
                models.deep_view(),
            ) == Some(rejection@),
        },
{
    let mut i: usize = 0;
    let ghost all = notes.deep_view();
    let ghost decks = deck_names.deep_view();
    let ghost known = models.deep_view();
    assert(all.skip(0) == all);
    while i < notes.len()
        invariant
            i <= notes.len(),
            all == notes.deep_view(),
            decks == deck_names.deep_view(),
            known == models.deep_view(),
            first_rejection(all, decks, known) == first_rejection(all.skip(i as int), decks, known),
        decreases notes.len() - i,
    {
        let note = &notes[i];
        let ghost rest = all.skip(i as int);
        assert(rest[0] == note@);
        assert(rest.drop_first() == all.skip(i + 1));
        if !has_name(deck_names, &note.deck) {
            return Err(Rejection::UnknownDeck(note.deck.clone()));
        }
        match lookup_model(models, &note.model) {
            None => {
                return Err(Rejection::UnknownModel(note.model.clone()));
            },
            Some(model) => {
                match lookup_unknown_field(&note.fields, &model.field_names) {
                    Some(field) => {
                        return Err(
                            Rejection::UnknownField {
                                model: note.model.clone(),
                                field: field.clone(),
                            },
                        );
                    },
                    None => {},
                }
            },
        }
        i += 1;
    }
    Ok(())
}

/// A parsed note as it is compared and sent.
pub fn prepare(note: Note, options: &TagOptions) -> (r: Note)
    ensures
        r@ == prepared(note@, options@),
{
    let Note { id, deck, model, fields, tags, question } = note;
    let ghost before = fields.deep_view();
    let ghost tags_before = tags.deep_view();
    let mut wrapped_fields: Vec<(String, String)> = Vec::new();
    let mut i: usize = 0;
    while i < fields.len()
        invariant
            i <= fields.len(),
            before == fields.deep_view(),
            wrapped_fields.len() == i,
            forall|k: int|
                0 <= k < i ==> (#[trigger] wrapped_fields[k]).deep_view() == wrap_fields(before)[k],
        decreases fields.len() - i,
    {
        assert(before[i as int] == fields[i as int].deep_view());
        wrapped_fields.push((fields[i].0.clone(), fmt_content(&fields[i].1)));
        i += 1;
    }
    assert(wrapped_fields.deep_view() =~= wrap_fields(before));
    let mut tags = tags;
    if options.add_generated {
        let ghost old_tags = tags.deep_view();
        tags.push(String::from_str("generated"));
        assert(tags.deep_view() =~= old_tags.push("generated"@));
    }
    match &options.add_generation_date {
        Some(date) => {
            let ghost old_tags = tags.deep_view();
            tags.push(date.clone());
            assert(tags.deep_view() =~= old_tags.push(date@));
        },
        None => {},
    }
    Note { id, deck, model, fields: wrapped_fields, tags, question }
}

/// One pass over a document: its candidates, and how far the pass has come.
#[derive(Debug)]
pub struct Pass {
    candidates: Vec<Note>,
    cursor: usize,
    created: usize,
    unfinished: bool,
}

/// The mathematical value of a `Pass`.
pub struct PassView {
    pub candidates: Seq<NoteView>,
    /// The index of the candidate that is decided next.
    pub cursor: int,
    /// How many notes the store has created in this pass.
    pub created: int,
    pub unfinished: bool,
}

impl View for Pass {
    type V = PassView;

    closed spec fn view(&self) -> PassView {
        PassView {
            candidates: self.candidates.deep_view(),
            cursor: self.cursor as int,
            created: self.created as int,
            unfinished: self.unfinished,
        }
    }
}

impl PassView {
    /// The cursor lies within the candidates, and no more notes were created
    /// than candidates were decided.
    pub open spec fn wf(self) -> bool {
        0 <= self.created <= self.cursor <= self.candidates.len()
    }

    /// A creation request is waiting for its answer.
    pub open spec fn awaiting(self) -> bool {
        self.cursor < self.candidates.len()
    }
}

impl State {
    /// The state at the start of a session.
    pub fn new(deck_names: Vec<String>, models: Vec<Model>, added_notes: Vec<Note>) -> (state: State)
        ensures
            state@ == (StateView {
                deck_names: deck_names.deep_view(),
                models: models.deep_view(),
                added_notes: added_notes.deep_view(),
                last_fingerprint: None,
            }),
    {
        State { deck_names, models, added_notes, last_fingerprint: None }
    }

    /// Takes over the decks and models that the store has now.
    pub fn reload(&mut self, deck_names: Vec<String>, models: Vec<Model>)
        ensures
            final(self)@ == (StateView {
                deck_names: deck_names.deep_view(),
                models: models.deep_view(),
                ..old(self)@
            }),
    {
        self.deck_names = deck_names;
        self.models = models;
    }

    /// The model called `name`; of several, the last.
    pub fn model_named(&self, name: &String) -> (r: Option<&Model>)
        ensures
            match r {
                Some(model) => find_model(self@.models, name@) == Some(model@),
                None => find_model(self@.models, name@) is None,
            },
    {
        lookup_model(&self.models, name)
    }

    /// Takes over the notes that the store holds now.
    pub fn reload_notes(&mut self, added_notes: Vec<Note>)
        ensures
            final(self)@ == (StateView { added_notes: added_notes.deep_view(), ..old(self)@ }),
    {
        self.added_notes = added_notes;
    }

    /// Notes the fingerprint of the text at hand, and says whether it
    /// differs from that of the last pass. The first text of a session
    /// always differs.
    pub fn changed(&mut self, fingerprint: u64) -> (r: bool)
        ensures
            r == (old(self)@.last_fingerprint != Some(fingerprint)),
            final(self)@ == (StateView { last_fingerprint: Some(fingerprint), ..old(self)@ }),
    {
        let r = match self.last_fingerprint {
            Some(last) => last != fingerprint,
            None => true,
        };
        self.last_fingerprint = Some(fingerprint);
        r
    }

    /// Takes the fingerprint of `content`, and says whether it differs from
    /// that of the last pass. A pass over an unchanged text can be skipped:
    /// the same text a second time gives `false`.
    pub fn observe(&mut self, content: &str) -> (r: bool)
        ensures
            r == (old(self)@.last_fingerprint != Some(metro_hash64(content@))),
            final(self)@ == (StateView {
                last_fingerprint: Some(metro_hash64(content@)),
                ..old(self)@
            }),
    {
        let value = fingerprint(content);
        self.changed(value)
    }

    /// Whether a known note is equivalent to `note`.
    pub fn is_known(&self, note: &Note) -> (r: bool)
        ensures
            r == is_known(self@.added_notes, note@),
    {
        let mut i: usize = 0;
        while i < self.added_notes.len()
            invariant
                i <= self.added_notes.len(),
                forall|k: int|
                    0 <= k < i ==> !equivalent(#[trigger] self.added_notes.deep_view()[k], note@),
            decreases self.added_notes.len() - i,
        {
            if self.added_notes[i].equivalent(note) {
                assert(equivalent(self.added_notes.deep_view()[i as int], note@));
                return true;
            }
            i += 1;
        }
        false
    }

    /// Plans a pass over `content`: parses it, checks every note against
    /// decks and models, and prepares the notes. Nothing is proposed, and
    /// the state is left as it is, unless all of this succeeds.
    pub fn plan(&self, content: &str, options: &TagOptions) -> (r: Result<Pass, PassError>)
        ensures
            match r {
                Ok(pass) => plan(content@, self@.deck_names, self@.models, options@) matches Ok(p)
                    && pass@ == (PassView {
                    candidates: p.candidates,
                    cursor: 0,
                    created: 0,
                    unfinished: p.unfinished,
                }) && pass@.wf() && forall|k: int|
                    0 <= k < pass@.candidates.len() ==> distinct_names(
                        (#[trigger] pass@.candidates[k]).fields,
                    ),
                Err(e) => plan(content@, self@.deck_names, self@.models, options@) == Err::<
                    PlanView,
                    PassErrorView,
                >(e@),
            },
    {
        let document = match parse_document(content, HEADER, FOOTER) {
            Ok(document) => document,
            Err(e) => {
                return Err(PassError::Parse(e));
            },
        };
        match validate(&document.notes, &self.deck_names, &self.models) {
            Ok(_) => {},
            Err(rejection) => {
                return Err(PassError::Rejected(rejection));
            },
        }
        let unfinished = document.has_unfinished_note();
        let ghost parsed = document@.notes;
        let mut notes = document.notes;
        let mut candidates: Vec<Note> = Vec::new();
        let mut i: usize = 0;
        while i < notes.len()
            invariant
                i <= notes.len(),
                parsed == notes.deep_view(),
                candidates.len() == i,
                forall|k: int|
                    0 <= k < i ==> (#[trigger] candidates[k])@ == prepared(parsed[k], options@),
            decreases notes.len() - i,
        {
            let candidate = prepare(notes[i].duplicate(), options);
            candidates.push(candidate);
            i += 1;
        }
        assert(candidates.deep_view() =~= Seq::new(
            parsed.len(),
            |i: int| prepared(parsed[i], options@),
        ));
        assert forall|k: int| 0 <= k < candidates.len() implies distinct_names(
            (#[trigger] candidates.deep_view()[k]).fields,
        ) by {
            assert(parsed[k].complete());
            law_prepared_keeps_names(parsed[k], options@);
        }
        Ok(Pass { candidates, cursor: 0, created: 0, unfinished })
    }
}

impl Pass {
    #[verifier::type_invariant]
    spec fn inv(self) -> bool {
        self.created <= self.cursor <= self.candidates.len()
    }

    /// The candidates of the pass, in order.
    pub fn candidates(&self) -> (r: &Vec<Note>)
        ensures
            r.deep_view() == self@.candidates,
    {
        &self.candidates
    }

    /// How many candidates the pass has.
    pub fn total(&self) -> (r: usize)
        ensures
            r == self@.candidates.len(),
    {
        self.candidates.len()
    }

    /// How many candidates are decided: those before this index were
    /// created, refused by the store, or passed over as duplicates.
    pub fn decided(&self) -> (r: usize)
        ensures
            r == self@.cursor,
    {
        self.cursor
    }

    /// How many notes the store has created in this pass.
    pub fn created(&self) -> (r: usize)
        ensures
            r == self@.created,
    {
        self.created
    }

    /// Whether a note was left open at the end of the document.
    pub fn has_unfinished_note(&self) -> (r: bool)
        ensures
            r == self@.unfinished,
    {
        self.unfinished
    }

    /// The next creation request, or `None` when the pass is over.
    ///
    /// Every candidate from the cursor on that is equivalent to a known note
    /// is passed over as a duplicate. The request is for the first candidate
    /// that is not; the cursor stays on it until its answer is recorded.
    pub fn next_request(&mut self, state: &State) -> (r: Option<crate::api::Note>)
        ensures
            final(self)@.wf(),
            final(self)@ == (PassView {
                cursor: first_new(state@.added_notes, old(self)@.candidates, old(self)@.cursor),
                ..old(self)@
            }),
            match r {
                Some(request) => final(self)@.awaiting() && request@ == request_for(
                    final(self)@.candidates[final(self)@.cursor],
                ),
                None => !final(self)@.awaiting(),
            },
    {
        proof {
            use_type_invariant(&*self);
        }
        let ghost known = state@.added_notes;
        let ghost all = self@.candidates;
        let ghost start = self@.cursor;
        while self.cursor < self.candidates.len()
            invariant
                self@.wf(),
                self@.candidates == all,
                all == old(self)@.candidates,
                start == old(self)@.cursor,
                self@.created == old(self)@.created,
                self@.unfinished == old(self)@.unfinished,
                known == state@.added_notes,
                start <= self@.cursor,
                first_new(known, all, start) == first_new(known, all, self@.cursor),
            decreases self.candidates.len() - self.cursor,
        {
            assert(all[self@.cursor] == self.candidates[self.cursor as int]@);
            if !state.is_known(&self.candidates[self.cursor]) {
                return Some(creation_request(&self.candidates[self.cursor]));
            }
            self.cursor += 1;
        }
        None
    }

    /// Records the answer of the store to the pending request, and moves the
    /// pass on. Where the store created the note, the candidate joins the
    /// known notes under the identifier that the store gave it. `None` says
    /// that the store refused the note as a duplicate of its own: the known
    /// notes stay as they are. Returns `false`, and changes nothing, where no
    /// request is pending.
    pub fn record(&mut self, state: &mut State, id: Option<usize>) -> (r: bool)
        ensures
            r == old(self)@.awaiting(),
            final(self)@.wf(),
            r ==> final(self)@ == (PassView {
                cursor: old(self)@.cursor + 1,
                created: old(self)@.created + if id is Some {
                    1int
                } else {
                    0int
                },
                ..old(self)@
            }),
            r ==> final(state)@ == (StateView {
                added_notes: answered(
                    old(state)@.added_notes,
                    old(self)@.candidates[old(self)@.cursor],
                    id,
                ),
                ..old(state)@
            }),
            !r ==> final(self)@ == old(self)@ && final(state)@ == old(state)@,
    {
        proof {
            use_type_invariant(&*self);
        }
        if self.cursor >= self.candidates.len() {
            return false;
        }
        let ghost known = state@.added_notes;
        if id.is_some() {
            let mut note = self.candidates[self.cursor].duplicate();
            note.id = id;
            state.added_notes.push(note);
            assert(state@.added_notes =~= known.push(
                recorded(old(self)@.candidates[old(self)@.cursor], id),
            ));
        }
        self.cursor += 1;
        if id.is_some() {
            self.created += 1;
        }
        true
    }

    /// Runs the pass on with the answers given, as if the store had given
    /// them in this order: each request is answered by the next answer, until
    /// the candidates or the answers run out. Returns the number of requests
    /// answered.
    pub fn replay(&mut self, state: &mut State, answers: &Vec<Option<usize>>) -> (made: usize)
        ensures
            made == requests_made(
                old(state)@.added_notes,
                old(self)@.candidates,
                old(self)@.cursor,
                answers@,
            ),
            final(state)@ == (StateView {
                added_notes: after_pass(
                    old(state)@.added_notes,
                    old(self)@.candidates,
                    old(self)@.cursor,
                    answers@,
                ),
                ..old(state)@
            }),
            final(self)@.candidates == old(self)@.candidates,
            final(self)@.wf(),
    {
        proof {
            use_type_invariant(&*self);
        }
        let ghost all = self@.candidates;
        let ghost target = after_pass(state@.added_notes, all, self@.cursor, answers@);
        let ghost total = requests_made(state@.added_notes, all, self@.cursor, answers@);
        let mut made: usize = 0;
        let mut i: usize = 0;
        let mut open = true;
        assert(answers@.skip(0) == answers@);
        while open && i < answers.len()
            invariant
                i <= answers.len(),
                made <= i,
                self@.wf(),
                self@.candidates == all,
                all == old(self)@.candidates,
                state@ == (StateView { added_notes: state@.added_notes, ..old(state)@ }),
                open ==> after_pass(state@.added_notes, all, self@.cursor, answers@.skip(i as int))
                    == target,
                open ==> made + requests_made(
                    state@.added_notes,
                    all,
                    self@.cursor,
                    answers@.skip(i as int),
                ) == total,
                !open ==> state@.added_notes == target && made == total,
            decreases
                    answers.len() - i + if open {
                        1int
                    } else {
                        0int
                    },
        {
            let ghost rest = answers@.skip(i as int);
            let ghost known = state@.added_notes;
            let ghost from = self@.cursor;
            proof {
                lemma_first_new(known, all, from);
                assert(rest[0] == answers@[i as int]);
                assert(rest.drop_first() == answers@.skip(i + 1));
            }
            match self.next_request(state) {
                None => {
                    open = false;
                },
                Some(_) => {
                    proof {
                        lemma_first_new(known, all, self@.cursor);
                        assert(first_new(known, all, self@.cursor) == self@.cursor);
                    }
                    let answered = self.record(state, answers[i]);
                    made += 1;
                    i += 1;
                },
            }
        }
        proof {
            if open {
                assert(answers@.skip(i as int).len() == 0);
            }
        }
        made
    }
}

/// `first_new` returns an index between `from` and the number of
/// candidates; an index before the end is that of a candidate that is not
/// known, and every candidate passed over is known.
pub proof fn lemma_first_new(known: Seq<NoteView>, candidates: Seq<NoteView>, from: int)
    requires
        0 <= from <= candidates.len(),
    ensures
        from <= first_new(known, candidates, from) <= candidates.len(),
        first_new(known, candidates, from) < candidates.len() ==> !is_known(
            known,
            candidates[first_new(known, candidates, from)],
        ),
        forall|k: int|
            from <= k < first_new(known, candidates, from) ==> is_known(
                known,
                #[trigger] candidates[k],
            ),
    decreases candidates.len() - from,
{
    if from < candidates.len() && is_known(known, candidates[from]) {
        lemma_first_new(known, candidates, from + 1);
    }
}

/// Where every candidate from `from` on is equivalent to a known note, the
/// pass proposes nothing more.
pub proof fn law_known_candidates_are_not_proposed(
    known: Seq<NoteView>,
    candidates: Seq<NoteView>,
    from: int,
)
    requires
        0 <= from <= candidates.len(),
        forall|k: int| from <= k < candidates.len() ==> is_known(known, #[trigger] candidates[k]),
    ensures
        first_new(known, candidates, from) == candidates.len(),
{
    lemma_first_new(known, candidates, from);
}

/// Once the store has created a note, the note is known, and so is every
/// note equivalent to it: no note is created twice in one pass.
pub proof fn law_recorded_note_is_known(
    known: Seq<NoteView>,
    note: NoteView,
    id: Option<usize>,
    later: NoteView,
)
    requires
        id is Some,
        equivalent(note, later),
    ensures
        is_known(answered(known, note, id), later),
{
    let after = answered(known, note, id);
    assert(equivalent(after[known.len() as int], later));
}

/// A note that the store refused leaves the known notes as they are.
pub proof fn law_refused_note_is_not_recorded(known: Seq<NoteView>, note: NoteView)
    ensures
        answered(known, note, None) == known,
{
}

/// A note that is known stays known when another note is recorded.
pub proof fn law_known_stays_known(known: Seq<NoteView>, added: NoteView, note: NoteView)
    requires
        is_known(known, note),
    ensures
        is_known(known.push(added), note),
{
    let i = choose|i: int| 0 <= i < known.len() && equivalent(#[trigger] known[i], note);
    assert(equivalent(known.push(added)[i], note));
}

/// A document of which some note names a deck that the store does not have
/// is refused as a whole: the pass has no candidates.
pub proof fn law_unknown_deck_rejects(
    notes: Seq<NoteView>,
    decks: Seq<Seq<char>>,
    models: Seq<ModelView>,
    i: int,
)
    requires
        0 <= i < notes.len(),
        !decks.contains(notes[i].deck),
    ensures
        first_rejection(notes, decks, models) is Some,
    decreases notes.len(),
{
    if i > 0 && check_note(notes[0], decks, models) is None {
        law_unknown_deck_rejects(notes.drop_first(), decks, models, i - 1);
    }
}

/// A document is accepted exactly when every note fits the store: its deck
/// is known, its model is known, and the model has each of its fields.
pub proof fn law_accepted_iff_all_fit(
    notes: Seq<NoteView>,
    decks: Seq<Seq<char>>,
    models: Seq<ModelView>,
)
    ensures
        first_rejection(notes, decks, models) is None <==> forall|i: int|
            0 <= i < notes.len() ==> check_note(#[trigger] notes[i], decks, models) is None,
    decreases notes.len(),
{
    if notes.len() > 0 {
        law_accepted_iff_all_fit(notes.drop_first(), decks, models);
        if first_rejection(notes, decks, models) is None {
            assert forall|i: int| 0 <= i < notes.len() implies check_note(
                #[trigger] notes[i],
                decks,
                models,
            ) is None by {
                if i > 0 {
                    assert(notes.drop_first()[i - 1] == notes[i]);
                }
            }
        }
        if forall|i: int|
            0 <= i < notes.len() ==> check_note(#[trigger] notes[i], decks, models) is None {
            assert(check_note(notes[0], decks, models) is None);
            assert forall|i: int| 0 <= i < notes.drop_first().len() implies check_note(
                #[trigger] notes.drop_first()[i],
                decks,
                models,
            ) is None by {
                assert(notes.drop_first()[i] == notes[i + 1]);
            }
        }
    }
}

/// The known notes after a pass has run on from candidate `from`, the store
/// giving the answers in order. The pass ends with the candidates or with the
/// answers, whichever run out first. A note that the store created joins the
/// known notes; a note that it refused does not.
pub open spec fn after_pass(
    known: Seq<NoteView>,
    candidates: Seq<NoteView>,
    from: int,
    answers: Seq<Option<usize>>,
) -> Seq<NoteView>
    decreases answers.len(),
{
    let at = first_new(known, candidates, from);
    if 0 <= from && at < candidates.len() && answers.len() > 0 {
        after_pass(
            answered(known, candidates[at], answers[0]),
            candidates,
            at + 1,
            answers.drop_first(),
        )
    } else {
        known
    }
}

/// How many creation requests a pass makes from candidate `from` on, the
/// store giving the answers in order.
pub open spec fn requests_made(
    known: Seq<NoteView>,
    candidates: Seq<NoteView>,
    from: int,
    answers: Seq<Option<usize>>,
) -> nat
    decreases answers.len(),
{
    let at = first_new(known, candidates, from);
    if 0 <= from && at < candidates.len() && answers.len() > 0 {
        1 + requests_made(
            answered(known, candidates[at], answers[0]),
            candidates,
            at + 1,
            answers.drop_first(),
        )
    } else {
        0
    }
}

/// A pass only appends to the known notes: what was known before stands
/// first and unchanged, and each note appended is a candidate of the pass
/// that the store created, under the identifier that the store gave it.
pub proof fn law_pass_appends_created_notes(
    known: Seq<NoteView>,
    candidates: Seq<NoteView>,
    from: int,
    answers: Seq<Option<usize>>,
)
    requires
        0 <= from <= candidates.len(),
    ensures
        known.len() <= after_pass(known, candidates, from, answers).len(),
        after_pass(known, candidates, from, answers).take(known.len() as int) == known,
        forall|k: int|
            known.len() <= k < after_pass(known, candidates, from, answers).len() ==> {
                &&& (#[trigger] after_pass(known, candidates, from, answers)[k]).id is Some
                &&& exists|j: int|
                    from <= j < candidates.len() && after_pass(known, candidates, from, answers)[k]
                        == recorded(
                        #[trigger] candidates[j],
                        after_pass(known, candidates, from, answers)[k].id,
                    )
            },
    decreases answers.len(),
{
    lemma_first_new(known, candidates, from);
    let at = first_new(known, candidates, from);
    let end = after_pass(known, candidates, from, answers);
    if at < candidates.len() && answers.len() > 0 {
        let more = answered(known, candidates[at], answers[0]);
        law_pass_appends_created_notes(more, candidates, at + 1, answers.drop_first());
        assert(end.take(known.len() as int) == known) by {
            assert(end.take(more.len() as int).take(known.len() as int) == end.take(
                known.len() as int,
            ));
            assert(more.take(known.len() as int) == known);
        }
        assert forall|k: int| known.len() <= k < end.len() implies {
            &&& (#[trigger] end[k]).id is Some
            &&& exists|j: int|
                from <= j < candidates.len() && end[k] == recorded(
                    #[trigger] candidates[j],
                    end[k].id,
                )
        } by {
            if k < more.len() {
                assert(end.take(more.len() as int)[k] == end[k]);
                assert(end[k] == recorded(candidates[at], answers[0]));
            } else {
                let j = choose|j: int|
                    at + 1 <= j < candidates.len() && end[k] == recorded(
                        #[trigger] candidates[j],
                        end[k].id,
                    );
                assert(from <= j < candidates.len() && end[k] == recorded(
                    candidates[j],
                    end[k].id,
                ));
            }
        }
    } else {
        assert(end.take(known.len() as int) == known);
    }
}

/// Every note that was known before a pass is known after it; and where the
/// store created every note that the pass asked for, every candidate is
/// known after a pass that ran to its end.
pub proof fn law_pass_leaves_candidates_known(
    known: Seq<NoteView>,
    candidates: Seq<NoteView>,
    from: int,
    answers: Seq<Option<usize>>,
)
    requires
        0 <= from <= candidates.len(),
    ensures
        forall|note: NoteView|
            is_known(known, note) ==> #[trigger] is_known(
                after_pass(known, candidates, from, answers),
                note,
            ),
        answers.len() >= candidates.len() - from && (forall|i: int|
            0 <= i < answers.len() ==> (#[trigger] answers[i]) is Some) ==> forall|k: int|
            from <= k < candidates.len() ==> is_known(
                after_pass(known, candidates, from, answers),
                #[trigger] candidates[k],
            ),
    decreases answers.len(),
{
    lemma_first_new(known, candidates, from);
    let at = first_new(known, candidates, from);
    if at < candidates.len() && answers.len() > 0 {
        let more = answered(known, candidates[at], answers[0]);
        let rest = answers.drop_first();
        law_pass_leaves_candidates_known(more, candidates, at + 1, rest);
        let end = after_pass(more, candidates, at + 1, rest);
        assert forall|note: NoteView| is_known(known, note) implies is_known(more, note) by {
            if answers[0] is Some {
                law_known_stays_known(known, recorded(candidates[at], answers[0]), note);
            }
        }
        assert forall|note: NoteView| is_known(known, note) implies #[trigger] is_known(
            end,
            note,
        ) by {
            assert(is_known(more, note));
        }
        if answers.len() >= candidates.len() - from && (forall|i: int|
            0 <= i < answers.len() ==> (#[trigger] answers[i]) is Some) {
            assert forall|i: int| 0 <= i < rest.len() implies (#[trigger] rest[i]) is Some by {
                assert(rest[i] == answers[i + 1]);
            }
            assert(answers[0] is Some);
            assert forall|k: int| from <= k < candidates.len() implies is_known(
                end,
                #[trigger] candidates[k],
            ) by {
                if k < at {
                    assert(is_known(more, candidates[k]));
                } else if k == at {
                    law_recorded_note_is_known(known, candidates[at], answers[0], candidates[at]);
                    assert(is_known(more, candidates[at]));
                }
            }
        }
    }
}

/// Where the store created every note that a finished pass asked for, a pass
/// over the same candidates makes no creation request.
pub proof fn law_second_pass_creates_nothing(
    known: Seq<NoteView>,
    candidates: Seq<NoteView>,
    answers: Seq<Option<usize>>,
    again: Seq<Option<usize>>,
)
    requires
        answers.len() >= candidates.len(),
        forall|i: int| 0 <= i < answers.len() ==> (#[trigger] answers[i]) is Some,
    ensures
        first_new(after_pass(known, candidates, 0, answers), candidates, 0) == candidates.len(),
        requests_made(after_pass(known, candidates, 0, answers), candidates, 0, again) == 0,
{
    law_pass_leaves_candidates_known(known, candidates, 0, answers);
    law_known_candidates_are_not_proposed(
        after_pass(known, candidates, 0, answers),
        candidates,
        0,
    );
}

/// A pass makes no more requests than there are candidates left, and none
/// where all of them are known.
pub proof fn law_requests_are_bounded(
    known: Seq<NoteView>,
    candidates: Seq<NoteView>,
    from: int,
    answers: Seq<Option<usize>>,
)
    requires
        0 <= from <= candidates.len(),
    ensures
        requests_made(known, candidates, from, answers) <= candidates.len() - from,
        (forall|k: int| from <= k < candidates.len() ==> is_known(known, #[trigger] candidates[k]))
            ==> requests_made(known, candidates, from, answers) == 0,
    decreases answers.len(),
{
    lemma_first_new(known, candidates, from);
    let at = first_new(known, candidates, from);
    if at < candidates.len() && answers.len() > 0 {
        law_requests_are_bounded(
            answered(known, candidates[at], answers[0]),
            candidates,
            at + 1,
            answers.drop_first(),
        );
    }
}

} // verus!
