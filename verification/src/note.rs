//! The note record and content equivalence.
//!
//! Two notes are equivalent when deck, model and the tag sequence agree
//! exactly and the fields agree up to canonicalisation: fields with an empty
//! value are left out, whitespace is ignored, and `&lt;` / `&gt;` count as
//! `<` / `>`, in names and in values. Identifier and question play no part.

use crate::text::{
    canonical, canonical_exec, entity_gt, entity_lt, law_canonical_unescapes_gt,
    law_canonical_unescapes_lt, same_chars, strip_whitespace,
};
use vstd::prelude::*;

verus! {

/// One flashcard record.
///
/// `fields` holds the name and the value of each field in the order in which
/// they were set. In a note that the parser completed no name occurs twice
/// (see `NoteView::complete`); equivalence does not depend on the order.
#[derive(Debug, Clone)]
pub struct Note {
    /// Assigned by the remote store; absent on a freshly parsed note.
    pub id: Option<usize>,
    pub deck: String,
    pub model: String,
    pub fields: Vec<(String, String)>,
    pub tags: Vec<String>,
    /// A rendered preview, for messages only.
    pub question: Option<String>,
}

/// The mathematical value of a `Note`.
pub struct NoteView {
    pub id: Option<usize>,
    pub deck: Seq<char>,
    pub model: Seq<char>,
    pub fields: Seq<(Seq<char>, Seq<char>)>,
    pub tags: Seq<Seq<char>>,
    pub question: Option<Seq<char>>,
}

impl View for Note {
    type V = NoteView;

    open spec fn view(&self) -> NoteView {
        NoteView {
            id: self.id,
            deck: self.deck@,
            model: self.model@,
            fields: self.fields.deep_view(),
            tags: self.tags.deep_view(),
            question: match self.question {
                Some(q) => Some(q@),
                None => None,
            },
        }
    }
}

impl DeepView for Note {
    type V = NoteView;

    open spec fn deep_view(&self) -> NoteView {
        self@
    }
}

/// What a message shows of a note: its question where it has one, else its
/// fields.
#[derive(Debug)]
pub enum Preview<'a> {
    Question(&'a String),
    Fields(&'a Vec<(String, String)>),
}

/// No name occurs twice among `fields`.
pub open spec fn distinct_names(fields: Seq<(Seq<char>, Seq<char>)>) -> bool {
    forall|i: int, j: int|
        0 <= i < j < fields.len() ==> (#[trigger] fields[i]).0 != (#[trigger] fields[j]).0
}

/// No tag occurs twice among `tags`.
pub open spec fn distinct_tags(tags: Seq<Seq<char>>) -> bool {
    forall|i: int, j: int| 0 <= i < j < tags.len() ==> #[trigger] tags[i] != #[trigger] tags[j]
}

impl NoteView {
    /// A note as the parser completes it: at least one field, no field name
    /// and no tag twice, and neither identifier nor question.
    pub open spec fn complete(self) -> bool {
        &&& self.fields.len() > 0
        &&& distinct_names(self.fields)
        &&& distinct_tags(self.tags)
        &&& self.id is None
        &&& self.question is None
    }
}

/// A field takes part in the comparison when its value is not empty.
pub open spec fn compared(field: (Seq<char>, Seq<char>)) -> bool {
    field.1.len() > 0
}

/// The canonical form of a field: that of its name and that of its value.
pub open spec fn canonical_pair(field: (Seq<char>, Seq<char>)) -> (Seq<char>, Seq<char>) {
    (canonical(field.0), canonical(field.1))
}

/// The set of canonical forms of the compared fields.
pub open spec fn canonical_pairs(fields: Seq<(Seq<char>, Seq<char>)>) -> Set<
    (Seq<char>, Seq<char>),
> {
    Set::new(
        |pair: (Seq<char>, Seq<char>)|
            exists|i: int|
                0 <= i < fields.len() && compared(#[trigger] fields[i]) && canonical_pair(
                    fields[i],
                ) == pair,
    )
}

/// Content equivalence of two notes.
pub open spec fn equivalent(a: NoteView, b: NoteView) -> bool {
    &&& a.deck == b.deck
    &&& a.model == b.model
    &&& a.tags == b.tags
    &&& canonical_pairs(a.fields) == canonical_pairs(b.fields)
}

/// Both notes carry an identifier and the two differ.
pub open spec fn identifiers_differ(a: NoteView, b: NoteView) -> bool {
    a.id is Some && b.id is Some && a.id != b.id
}

/// The canonical form of each field, index by index; `None` for a field that
/// is not compared.
pub open spec fn canonical_list(fields: Seq<(Seq<char>, Seq<char>)>) -> Seq<
    Option<(Seq<char>, Seq<char>)>,
> {
    Seq::new(
        fields.len(),
        |i: int|
            if compared(fields[i]) {
                Some(canonical_pair(fields[i]))
            } else {
                None
            },
    )
}

/// Every canonical form in `x` also stands in `y`.
pub open spec fn covers(
    x: Seq<Option<(Seq<char>, Seq<char>)>>,
    y: Seq<Option<(Seq<char>, Seq<char>)>>,
) -> bool {
    forall|i: int|
        0 <= i < x.len() && (#[trigger] x[i]) is Some ==> exists|j: int|
            0 <= j < y.len() && #[trigger] y[j] == x[i]
}

/// The sets of canonical forms are equal exactly when each list covers the
/// other.
pub proof fn lemma_pairs_equal_iff_covers(
    a: Seq<(Seq<char>, Seq<char>)>,
    b: Seq<(Seq<char>, Seq<char>)>,
)
    ensures
        (canonical_pairs(a) == canonical_pairs(b)) <==> (covers(
            canonical_list(a),
            canonical_list(b),
        ) && covers(canonical_list(b), canonical_list(a))),
{
    let la = canonical_list(a);
    let lb = canonical_list(b);
    assert forall|x: Seq<(Seq<char>, Seq<char>)>, i: int| 0 <= i < x.len() && compared(x[i])
        implies canonical_pairs(x).contains(canonical_pair(#[trigger] x[i])) by {}
    if covers(la, lb) && covers(lb, la) {
        assert forall|pair: (Seq<char>, Seq<char>)|
            canonical_pairs(a).contains(pair) == canonical_pairs(b).contains(pair) by {
            if canonical_pairs(a).contains(pair) {
                let i = choose|i: int|
                    0 <= i < a.len() && compared(#[trigger] a[i]) && canonical_pair(a[i]) == pair;
                assert(la[i] is Some);
                let j = choose|j: int| 0 <= j < lb.len() && #[trigger] lb[j] == la[i];
                assert(compared(b[j]));
            }
            if canonical_pairs(b).contains(pair) {
                let i = choose|i: int|
                    0 <= i < b.len() && compared(#[trigger] b[i]) && canonical_pair(b[i]) == pair;
                assert(lb[i] is Some);
                let j = choose|j: int| 0 <= j < la.len() && #[trigger] la[j] == lb[i];
                assert(compared(a[j]));
            }
        }
        assert(canonical_pairs(a) =~= canonical_pairs(b));
    }
    if canonical_pairs(a) == canonical_pairs(b) {
        assert forall|i: int| 0 <= i < la.len() && (#[trigger] la[i]) is Some implies exists|
            j: int,
        |
            0 <= j < lb.len() && #[trigger] lb[j] == la[i] by {
            assert(compared(a[i]));
            assert(canonical_pairs(b).contains(canonical_pair(a[i])));
            let j = choose|j: int|
                0 <= j < b.len() && compared(#[trigger] b[j]) && canonical_pair(b[j])
                    == canonical_pair(a[i]);
            assert(lb[j] == la[i]);
        }
        assert forall|i: int| 0 <= i < lb.len() && (#[trigger] lb[i]) is Some implies exists|
            j: int,
        |
            0 <= j < la.len() && #[trigger] la[j] == lb[i] by {
            assert(compared(b[i]));
            assert(canonical_pairs(a).contains(canonical_pair(b[i])));
            let j = choose|j: int|
                0 <= j < a.len() && compared(#[trigger] a[j]) && canonical_pair(a[j])
                    == canonical_pair(b[i]);
            assert(la[j] == lb[i]);
        }
    }
}

/// Whether two strings hold the same text.
pub fn same_string(a: &String, b: &String) -> (r: bool)
    ensures
        r == (a@ == b@),
{
    *a == *b
}

/// Whether two lists of strings are equal, element by element.
pub fn same_strings(a: &Vec<String>, b: &Vec<String>) -> (r: bool)
    ensures
        r == (a.deep_view() == b.deep_view()),
{
    if a.len() != b.len() {
        assert(a.deep_view().len() != b.deep_view().len());
        return false;
    }
    let mut i: usize = 0;
    while i < a.len()
        invariant
            a.len() == b.len(),
            i <= a.len(),
            forall|k: int| 0 <= k < i ==> a[k]@ == b[k]@,
        decreases a.len() - i,
    {
        if !same_string(&a[i], &b[i]) {
            assert(a.deep_view()[i as int] != b.deep_view()[i as int]);
            return false;
        }
        i += 1;
    }
    assert(a.deep_view() =~= b.deep_view());
    true
}

/// The canonical form of each field of a note.
fn canonical_fields(fields: &Vec<(String, String)>) -> (out: Vec<Option<(Vec<char>, Vec<char>)>>)
    ensures
        out.deep_view() == canonical_list(fields.deep_view()),
{
    let mut out: Vec<Option<(Vec<char>, Vec<char>)>> = Vec::new();
    let mut i: usize = 0;
    while i < fields.len()
        invariant
            i <= fields.len(),
            out.len() == i,
            forall|k: int|
                0 <= k < i ==> (#[trigger] out[k]).deep_view() == canonical_list(
                    fields.deep_view(),
                )[k],
        decreases fields.len() - i,
    {
        let name = &fields[i].0;
        let value = &fields[i].1;
        assert(fields.deep_view()[i as int] == (name@, value@));
        let entry = if value.as_str().is_empty() {
            None
        } else {
            Some((canonical_exec(name.as_str()), canonical_exec(value.as_str())))
        };
        out.push(entry);
        i += 1;
    }
    assert(out.deep_view() =~= canonical_list(fields.deep_view()));
    out
}

/// Whether the canonical form `pair` stands in `y`.
fn holds(y: &Vec<Option<(Vec<char>, Vec<char>)>>, pair: &(Vec<char>, Vec<char>)) -> (r: bool)
    ensures
        r == exists|j: int| 0 <= j < y.len() && #[trigger] y.deep_view()[j] == Some(pair.deep_view()),
{
    let mut j: usize = 0;
    while j < y.len()
        invariant
            j <= y.len(),
            forall|k: int| 0 <= k < j ==> #[trigger] y.deep_view()[k] != Some(pair.deep_view()),
        decreases y.len() - j,
    {
        match &y[j] {
            Some(other) => {
                let same = same_chars(&pair.0, &other.0) && same_chars(&pair.1, &other.1);
                proof {
                    assert(pair.0.deep_view() =~= pair.0@);
                    assert(pair.1.deep_view() =~= pair.1@);
                    assert(other.0.deep_view() =~= other.0@);
                    assert(other.1.deep_view() =~= other.1@);
                    assert(y.deep_view()[j as int] == Some(other.deep_view()));
                }
                if same {
                    return true;
                }
            },
            None => {
                assert(y.deep_view()[j as int] is None);
            },
        }
        j += 1;
    }
    false
}

/// Whether every canonical form in `x` also stands in `y`.
fn covers_exec(x: &Vec<Option<(Vec<char>, Vec<char>)>>, y: &Vec<Option<(Vec<char>, Vec<char>)>>) -> (r:
    bool)
    ensures
        r == covers(x.deep_view(), y.deep_view()),
{
    let mut i: usize = 0;
    while i < x.len()
        invariant
            i <= x.len(),
            forall|k: int|
                0 <= k < i && (#[trigger] x.deep_view()[k]) is Some ==> exists|j: int|
                    0 <= j < y.len() && #[trigger] y.deep_view()[j] == x.deep_view()[k],
        decreases x.len() - i,
    {
        if let Some(pair) = &x[i] {
            assert(x.deep_view()[i as int] == Some(pair.deep_view()));
            if !holds(y, pair) {
                return false;
            }
        }
        i += 1;
    }
    true
}

impl Note {
    /// The question of a note where it has one, else its fields.
    pub fn question_or_fields<'a>(
        question: &'a Option<String>,
        fields: &'a Vec<(String, String)>,
    ) -> (r: Preview<'a>)
        ensures
            match *question {
                Some(q) => r matches Preview::Question(shown) && *shown == q,
                None => r matches Preview::Fields(shown) && *shown == *fields,
            },
    {
        match question {
            Some(q) => Preview::Question(q),
            None => Preview::Fields(fields),
        }
    }

    /// Whether `self` and `other` are content-equivalent.
    pub fn equivalent(&self, other: &Note) -> (r: bool)
        ensures
            r == equivalent(self@, other@),
    {
        proof {
            lemma_pairs_equal_iff_covers(self@.fields, other@.fields);
        }
        if !same_string(&self.deck, &other.deck) {
            return false;
        }
        if !same_string(&self.model, &other.model) {
            return false;
        }
        if !same_strings(&self.tags, &other.tags) {
            return false;
        }
        let mine = canonical_fields(&self.fields);
        let theirs = canonical_fields(&other.fields);
        covers_exec(&mine, &theirs) && covers_exec(&theirs, &mine)
    }

    /// Whether the two notes carry different identifiers. Asked of two
    /// equivalent notes, `true` means that the store holds the same content
    /// under two identifiers.
    pub fn identifiers_differ(&self, other: &Note) -> (r: bool)
        ensures
            r == identifiers_differ(self@, other@),
    {
        match (self.id, other.id) {
            (Some(mine), Some(theirs)) => mine != theirs,
            _ => false,
        }
    }

    /// A copy of the note.
    pub fn duplicate(&self) -> (r: Note)
        ensures
            r@ == self@,
    {
        let mut fields: Vec<(String, String)> = Vec::new();
        let mut i: usize = 0;
        while i < self.fields.len()
            invariant
                i <= self.fields.len(),
                fields.len() == i,
                forall|k: int|
                    0 <= k < i ==> (#[trigger] fields[k]).deep_view()
                        == self.fields[k].deep_view(),
            decreases self.fields.len() - i,
        {
            fields.push((self.fields[i].0.clone(), self.fields[i].1.clone()));
            i += 1;
        }
        let mut tags: Vec<String> = Vec::new();
        let mut j: usize = 0;
        while j < self.tags.len()
            invariant
                j <= self.tags.len(),
                tags.len() == j,
                forall|k: int| 0 <= k < j ==> (#[trigger] tags[k])@ == self.tags[k]@,
            decreases self.tags.len() - j,
        {
            tags.push(self.tags[j].clone());
            j += 1;
        }
        let question = match &self.question {
            Some(q) => Some(q.clone()),
            None => None,
        };
        assert(fields.deep_view() =~= self.fields.deep_view());
        assert(tags.deep_view() =~= self.tags.deep_view());
        Note {
            id: self.id,
            deck: self.deck.clone(),
            model: self.model.clone(),
            fields,
            tags,
            question,
        }
    }
}

impl PartialEq for Note {
    /// `==` on notes is content equivalence.
    fn eq(&self, other: &Note) -> (r: bool) {
        self.equivalent(other)
    }
}

impl vstd::std_specs::cmp::PartialEqSpecImpl for Note {
    open spec fn obeys_eq_spec() -> bool {
        true
    }

    open spec fn eq_spec(&self, other: &Note) -> bool {
        equivalent(self@, other@)
    }
}

/// Every note is equivalent to itself.
pub proof fn law_equivalent_reflexive(a: NoteView)
    ensures
        equivalent(a, a),
{
}

/// Equivalence does not depend on the order of its two arguments.
pub proof fn law_equivalent_symmetric(a: NoteView, b: NoteView)
    ensures
        equivalent(a, b) == equivalent(b, a),
{
}

/// A note equivalent to a second, which is equivalent to a third, is
/// equivalent to the third.
pub proof fn law_equivalent_transitive(a: NoteView, b: NoteView, c: NoteView)
    requires
        equivalent(a, b),
        equivalent(b, c),
    ensures
        equivalent(a, c),
{
}

/// Identifier and question play no part in equivalence.
pub proof fn law_equivalent_ignores_identity(a: NoteView, b: NoteView)
    requires
        a.deck == b.deck,
        a.model == b.model,
        a.tags == b.tags,
        a.fields == b.fields,
    ensures
        equivalent(a, b),
{
}

/// Two notes whose tag sequences differ, be it only in order, are not
/// equivalent.
pub proof fn law_tag_order_matters(a: NoteView, b: NoteView)
    requires
        a.tags != b.tags,
    ensures
        !equivalent(a, b),
{
}

/// Two notes with the same deck, model and tags are equivalent when their
/// fields agree index by index in canonical form, a field with an empty value
/// standing against a field with an empty value.
pub proof fn law_equivalent_by_canonical_fields(a: NoteView, b: NoteView)
    requires
        a.deck == b.deck,
        a.model == b.model,
        a.tags == b.tags,
        a.fields.len() == b.fields.len(),
        forall|i: int|
            0 <= i < a.fields.len() ==> compared(#[trigger] a.fields[i]) == compared(b.fields[i])
                && canonical_pair(a.fields[i]) == canonical_pair(b.fields[i]),
    ensures
        equivalent(a, b),
{
    assert forall|pair: (Seq<char>, Seq<char>)|
        canonical_pairs(a.fields).contains(pair) == canonical_pairs(b.fields).contains(pair) by {
        if canonical_pairs(a.fields).contains(pair) {
            let i = choose|i: int|
                0 <= i < a.fields.len() && compared(#[trigger] a.fields[i]) && canonical_pair(
                    a.fields[i],
                ) == pair;
            assert(compared(b.fields[i]));
        }
        if canonical_pairs(b.fields).contains(pair) {
            let i = choose|i: int|
                0 <= i < b.fields.len() && compared(#[trigger] b.fields[i]) && canonical_pair(
                    b.fields[i],
                ) == pair;
            assert(compared(a.fields[i]));
        }
    }
    assert(canonical_pairs(a.fields) =~= canonical_pairs(b.fields));
}

/// Two notes with the same deck, model, tags and field names, whose values
/// differ only in whitespace, are equivalent, provided that no value is
/// empty on one side only.
pub proof fn law_whitespace_in_values_is_ignored(a: NoteView, b: NoteView)
    requires
        a.deck == b.deck,
        a.model == b.model,
        a.tags == b.tags,
        a.fields.len() == b.fields.len(),
        forall|i: int|
            0 <= i < a.fields.len() ==> {
                &&& (#[trigger] a.fields[i]).0 == b.fields[i].0
                &&& strip_whitespace(a.fields[i].1) == strip_whitespace(b.fields[i].1)
                &&& (a.fields[i].1.len() == 0) == (b.fields[i].1.len() == 0)
            },
    ensures
        equivalent(a, b),
{
    law_equivalent_by_canonical_fields(a, b);
}

/// A note is equivalent to the note in which one field value has an escape
/// `&lt;` or `&gt;` replaced by the character that it stands for.
pub proof fn law_escapes_in_values_are_ignored(
    a: NoteView,
    i: int,
    before: Seq<char>,
    after: Seq<char>,
    less: bool,
)
    requires
        0 <= i < a.fields.len(),
        a.fields[i].1 == before + (if less {
            entity_lt()
        } else {
            entity_gt()
        }) + after,
    ensures
        equivalent(
            a,
            NoteView {
                fields: a.fields.update(
                    i,
                    (
                        a.fields[i].0,
                        before + (if less {
                            seq!['<']
                        } else {
                            seq!['>']
                        }) + after,
                    ),
                ),
                ..a
            },
        ),
{
    let literal = if less {
        seq!['<']
    } else {
        seq!['>']
    };
    let b = NoteView { fields: a.fields.update(i, (a.fields[i].0, before + literal + after)), ..a };
    if less {
        law_canonical_unescapes_lt(before, after);
    } else {
        law_canonical_unescapes_gt(before, after);
    }
    assert((before + literal + after)[before.len() as int] == literal[0]);
    assert(a.fields[i].1[before.len() as int] == '&');
    law_equivalent_by_canonical_fields(a, b);
}

} // verus!
