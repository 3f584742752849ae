//! The values exchanged with the remote note store, and what is decided from
//! its answers.
//!
//! The transport is not part of the library: these are the plain records
//! that a request carries or an answer holds. A record keeps its fields in
//! the order in which the store listed them.

use crate::note::NoteView;
use crate::text::{
    ends_with, find, find_exec, lemma_find_in_rest, occurs_at, occurs_at_exec, to_chars,
};
use vstd::prelude::*;

verus! {

/// The names of all decks of the store.
#[derive(Debug)]
pub struct DeckNames(pub Vec<String>);

/// The names of all models of the store.
#[derive(Debug)]
pub struct ModelNames(pub Vec<String>);

/// The names of the fields of one model.
#[derive(Debug)]
pub struct ModelFieldNames(pub Vec<String>);

/// The note of a creation request.
#[derive(Debug)]
pub struct Note {
    pub deck_name: String,
    pub model_name: String,
    pub fields: Vec<(String, String)>,
    pub tags: Vec<String>,
}

/// The mathematical value of a creation request.
pub struct RequestView {
    pub deck_name: Seq<char>,
    pub model_name: Seq<char>,
    pub fields: Seq<(Seq<char>, Seq<char>)>,
    pub tags: Seq<Seq<char>>,
}

impl View for Note {
    type V = RequestView;

    open spec fn view(&self) -> RequestView {
        RequestView {
            deck_name: self.deck_name@,
            model_name: self.model_name@,
            fields: self.fields.deep_view(),
            tags: self.tags.deep_view(),
        }
    }
}

/// One field of a stored note.
#[derive(Debug)]
pub struct NoteInfoField {
    pub value: String,
    pub order: usize,
}

/// A stored note as the store describes it.
#[derive(Debug)]
pub struct NoteInfo {
    pub note_id: usize,
    pub model_name: String,
    pub fields: Vec<(String, NoteInfoField)>,
    pub tags: Vec<String>,
    pub cards: Vec<usize>,
}

/// A stored card as the store describes it.
#[derive(Debug)]
pub struct CardInfo {
    pub answer: String,
    pub question: String,
    pub deck_name: String,
    pub model_name: String,
    pub field_order: i32,
    pub fields: Vec<(String, NoteInfoField)>,
    pub css: String,
    pub card_id: usize,
    pub interval: i32,
    pub note: usize,
    pub ord: i32,
    pub card_type: i32,
    pub queue: i32,
    pub due: i32,
    pub reps: i32,
    pub lapses: i32,
    pub left: i32,
    pub modified: i32,
}

/// The creation request for a note: deck, model, fields and tags as they
/// stand.
pub open spec fn request_for(note: NoteView) -> RequestView {
    RequestView {
        deck_name: note.deck,
        model_name: note.model,
        fields: note.fields,
        tags: note.tags,
    }
}

/// The creation request for `note`.
pub fn creation_request(note: &crate::note::Note) -> (r: Note)
    ensures
        r@ == request_for(note@),
{
    let copy = note.duplicate();
    Note { deck_name: copy.deck, model_name: copy.model, fields: copy.fields, tags: copy.tags }
}

/// The words with which the store refuses a note that it already holds.
pub open spec fn duplicate_refusal() -> Seq<char> {
    "cannot create note because it is a duplicate"@
}

/// Whether the cause of a failed creation says that the store already holds
/// the note. Such a failure counts as "not created", not as an error.
pub fn is_duplicate_refusal(cause: &str) -> (r: bool)
    ensures
        r == ends_with(cause@, duplicate_refusal()),
{
    let text = to_chars(cause);
    let tail = to_chars("cannot create note because it is a duplicate");
    if text.len() < tail.len() {
        return false;
    }
    occurs_at_exec(&text, text.len() - tail.len(), &tail)
}

/// The words with which the store reports a note that it cannot render;
/// the identifier of the note and a colon follow.
pub open spec fn render_failure() -> Seq<char> {
    "anki returned an error: Can't render note with id "@
}

/// The colon as a text.
pub open spec fn colon() -> Seq<char> {
    seq![':']
}

/// The value of a decimal digit.
pub open spec fn digit_value(c: char) -> Option<int> {
    if '0' <= c <= '9' {
        Some(c as int - '0' as int)
    } else {
        None
    }
}

/// The number that a run of decimal digits writes; `None` where a character
/// is no digit. The empty run writes zero.
pub open spec fn decimal(digits: Seq<char>) -> Option<int>
    decreases digits.len(),
{
    if digits.len() == 0 {
        Some(0)
    } else {
        match (decimal(digits.drop_last()), digit_value(digits.last())) {
            (Some(high), Some(low)) => Some(high * 10 + low),
            _ => None,
        }
    }
}

/// The identifier that `text` writes: decimal digits, at least one, after an
/// optional `+`, and a value that a `usize` can hold.
pub open spec fn parse_id(text: Seq<char>) -> Option<usize> {
    let digits = if text.len() > 0 && text[0] == '+' {
        text.drop_first()
    } else {
        text
    };
    if digits.len() == 0 {
        None
    } else {
        match decimal(digits) {
            Some(value) => if value <= usize::MAX {
                Some(value as usize)
            } else {
                None
            },
            None => None,
        }
    }
}

/// The identifier of the note that the store could not render, read from the
/// cause of the failure: what stands between the fixed words and the next
/// colon. `None` where the cause has another form.
pub open spec fn unrendered_note(cause: Seq<char>) -> Option<usize> {
    let rest = cause.skip(render_failure().len() as int);
    let end = find(rest, 0, colon());
    if occurs_at(cause, 0, render_failure()) && end < rest.len() {
        parse_id(rest.take(end))
    } else {
        None
    }
}

/// A number written by a run of digits is not negative, and not smaller
/// than the number written by any shorter beginning of the run.
pub proof fn lemma_decimal_grows(digits: Seq<char>, k: int)
    requires
        0 <= k <= digits.len(),
        decimal(digits) is Some,
    ensures
        decimal(digits.take(k)) is Some,
        0 <= decimal(digits.take(k))->0 <= decimal(digits)->0,
    decreases digits.len(),
{
    if k == digits.len() {
        assert(digits.take(k) == digits);
        if digits.len() > 0 {
            lemma_decimal_grows(digits.drop_last(), k - 1);
        }
    } else {
        lemma_decimal_grows(digits.drop_last(), k);
        assert(digits.drop_last().take(k) == digits.take(k));
        lemma_decimal_grows(digits.drop_last(), digits.len() - 1);
    }
}

/// The identifier that `text[from..to]` writes.
fn parse_id_exec(text: &Vec<char>, from: usize, to: usize) -> (r: Option<usize>)
    requires
        from <= to <= text.len(),
    ensures
        r == parse_id(text@.subrange(from as int, to as int)),
{
    let ghost whole = text@.subrange(from as int, to as int);
    let start = if from < to && text[from] == '+' {
        from + 1
    } else {
        from
    };
    let ghost digits = text@.subrange(start as int, to as int);
    proof {
        if from < to {
            assert(whole[0] == text@[from as int]);
            assert(whole.drop_first() == text@.subrange(from + 1, to as int));
        }
    }
    if start == to {
        return None;
    }
    let mut value: usize = 0;
    let mut i: usize = start;
    assert(digits.take(0) == Seq::<char>::empty());
    assert(parse_id(whole) == match decimal(digits) {
        Some(v) => if v <= usize::MAX {
            Some(v as usize)
        } else {
            None
        },
        None => None,
    });
    while i < to
        invariant
            start <= i <= to <= text.len(),
            start < to,
            digits == text@.subrange(start as int, to as int),
            whole == text@.subrange(from as int, to as int),
            parse_id(whole) == match decimal(digits) {
                Some(v) => if v <= usize::MAX {
                    Some(v as usize)
                } else {
                    None
                },
                None => None,
            },
            decimal(digits.take(i - start)) == Some(value as int),
        decreases to - i,
    {
        let c = text[i];
        let ghost upto = digits.take(i + 1 - start);
        proof {
            assert(upto.drop_last() == digits.take(i - start));
            assert(upto.last() == c);
        }
        if c < '0' || c > '9' {
            proof {
                assert(decimal(upto) is None);
                if decimal(digits) is Some {
                    lemma_decimal_grows(digits, i + 1 - start);
                }
            }
            return None;
        }
        let low: usize = (c as u32 - '0' as u32) as usize;
        if value > (usize::MAX - low) / 10 {
            proof {
                assert(decimal(upto) == Some(value * 10 + low));
                if decimal(digits) is Some {
                    lemma_decimal_grows(digits, i + 1 - start);
                }
            }
            return None;
        }
        value = value * 10 + low;
        i += 1;
    }
    assert(digits.take(to - start) == digits);
    Some(value)
}

/// The identifier of the note that the store could not render, read from the
/// cause of the failure.
pub fn unrendered_note_id(cause: &str) -> (r: Option<usize>)
    ensures
        r == unrendered_note(cause@),
{
    let text = to_chars(cause);
    let words = to_chars("anki returned an error: Can't render note with id ");
    if !occurs_at_exec(&text, 0, &words) {
        return None;
    }
    let sep: Vec<char> = vec![':'];
    assert(sep@ == colon());
    let start = words.len();
    let end = find_exec(&text, start, &sep);
    proof {
        lemma_find_in_rest(text@, start as int, colon());
        assert(text@.skip(start as int).take(end - start) == text@.subrange(
            start as int,
            end as int,
        ));
    }
    if end >= text.len() {
        return None;
    }
    parse_id_exec(&text, start, end)
}

/// Where to put `field` among `sorted` so that the orders do not decrease:
/// after every field whose order is not larger.
pub open spec fn insert_by_order(
    sorted: Seq<(String, NoteInfoField)>,
    field: (String, NoteInfoField),
) -> Seq<(String, NoteInfoField)>
    decreases sorted.len(),
{
    if sorted.len() == 0 {
        seq![field]
    } else if sorted.last().1.order <= field.1.order {
        sorted.push(field)
    } else {
        insert_by_order(sorted.drop_last(), field).push(sorted.last())
    }
}

/// The fields by order; fields of the same order stay as they stood.
pub open spec fn sort_by_order(fields: Seq<(String, NoteInfoField)>) -> Seq<(String, NoteInfoField)>
    decreases fields.len(),
{
    if fields.len() == 0 {
        fields
    } else {
        insert_by_order(sort_by_order(fields.drop_last()), fields.last())
    }
}

/// One line for each field, `name: value`, the lines joined by line feeds.
pub open spec fn field_lines(fields: Seq<(String, NoteInfoField)>) -> Seq<char>
    decreases fields.len(),
{
    if fields.len() == 0 {
        Seq::empty()
    } else if fields.len() == 1 {
        fields[0].0@ + ": "@ + fields[0].1.value@
    } else {
        field_lines(fields.drop_last()) + "\n"@ + fields.last().0@ + ": "@ + fields.last().1.value@
    }
}

/// What is said of a note that the store could not render: its fields by
/// order.
pub open spec fn rendering_note(info: NoteInfo) -> Seq<char> {
    "fields of note: "@ + field_lines(sort_by_order(info.fields@))
}

/// The indices of `fields` by order of the field; fields of the same order
/// stay as they stood.
fn order_of_fields(fields: &Vec<(String, NoteInfoField)>) -> (order: Vec<usize>)
    ensures
        order.len() == fields.len(),
        forall|k: int| 0 <= k < order.len() ==> (#[trigger] order[k]) < fields.len(),
        Seq::new(order.len() as nat, |k: int| fields@[order[k] as int]) == sort_by_order(fields@),
{
    let mut order: Vec<usize> = Vec::new();
    let mut i: usize = 0;
    assert(fields@.take(0) == Seq::<(String, NoteInfoField)>::empty());
    assert(Seq::new(order.len() as nat, |k: int| fields@[order[k] as int]) =~= sort_by_order(
        fields@.take(0),
    ));
    while i < fields.len()
        invariant
            i <= fields.len(),
            order.len() == i,
            forall|k: int| 0 <= k < order.len() ==> (#[trigger] order[k]) < fields.len(),
            Seq::new(order.len() as nat, |k: int| fields@[order[k] as int]) == sort_by_order(
                fields@.take(i as int),
            ),
        decreases fields.len() - i,
    {
        let ghost sorted = sort_by_order(fields@.take(i as int));
        let ghost upto = fields@.take(i + 1);
        proof {
            assert(upto.drop_last() == fields@.take(i as int));
            assert(upto.last() == fields@[i as int]);
        }
        // find the place of field `i` from the right
        let mut at: usize = i;
        proof {
            assert(sorted.take(i as int) == sorted);
            assert(sorted.skip(i as int) == Seq::<(String, NoteInfoField)>::empty());
            assert(insert_by_order(sorted, fields@[i as int]) + Seq::<
                (String, NoteInfoField),
            >::empty() == insert_by_order(sorted, fields@[i as int]));
        }
        while at > 0 && fields[order[at - 1]].1.order > fields[i].1.order
            invariant
                at <= i < fields.len(),
                order.len() == i,
                forall|k: int| 0 <= k < order.len() ==> (#[trigger] order[k]) < fields.len(),
                sorted == Seq::new(order.len() as nat, |k: int| fields@[order[k] as int]),
                insert_by_order(sorted, fields@[i as int]) == insert_by_order(
                    sorted.take(at as int),
                    fields@[i as int],
                ) + sorted.skip(at as int),
            decreases at,
        {
            proof {
                let head = sorted.take(at as int);
                assert(head.last() == sorted[at - 1]);
                assert(head.drop_last() == sorted.take(at - 1));
                assert(insert_by_order(head, fields@[i as int]) == insert_by_order(
                    sorted.take(at - 1),
                    fields@[i as int],
                ).push(sorted[at - 1]));
                assert(seq![sorted[at - 1]] + sorted.skip(at as int) == sorted.skip(at - 1));
                assert(insert_by_order(sorted.take(at - 1), fields@[i as int]).push(sorted[at - 1])
                    + sorted.skip(at as int) == insert_by_order(
                    sorted.take(at - 1),
                    fields@[i as int],
                ) + (seq![sorted[at - 1]] + sorted.skip(at as int)));
            }
            at -= 1;
        }
        proof {
            let head = sorted.take(at as int);
            if at > 0 {
                assert(head.last() == sorted[at - 1]);
            }
            assert(insert_by_order(head, fields@[i as int]) == head.push(fields@[i as int]));
        }
        order.insert(at, i);
        proof {
            let now = Seq::new(order.len() as nat, |k: int| fields@[order[k] as int]);
            assert(now =~= sorted.take(at as int).push(fields@[i as int]) + sorted.skip(at as int));
        }
        i += 1;
    }
    assert(fields@.take(fields.len() as int) == fields@);
    order
}

/// What is said of a note that the store could not render.
pub fn describe_fields(info: &NoteInfo) -> (r: String)
    ensures
        r@ == rendering_note(*info),
{
    let order = order_of_fields(&info.fields);
    let ghost sorted = sort_by_order(info.fields@);
    let mut lines = String::new();
    let mut k: usize = 0;
    assert(sorted.take(0) == Seq::<(String, NoteInfoField)>::empty());
    while k < order.len()
        invariant
            k <= order.len(),
            order.len() == info.fields.len(),
            forall|m: int| 0 <= m < order.len() ==> (#[trigger] order[m]) < info.fields.len(),
            sorted == Seq::new(order.len() as nat, |m: int| info.fields@[order[m] as int]),
            lines@ == field_lines(sorted.take(k as int)),
        decreases order.len() - k,
    {
        let field = &info.fields[order[k]];
        proof {
            let upto = sorted.take(k + 1);
            assert(upto.drop_last() == sorted.take(k as int));
            assert(upto.last() == *field);
            if k == 0 {
                assert(upto[0] == *field);
                assert(Seq::<char>::empty() + field.0@ == field.0@);
            }
        }
        if k > 0 {
            lines.append("\n");
        }
        lines.append(field.0.as_str());
        lines.append(": ");
        lines.append(field.1.value.as_str());
        k += 1;
    }
    assert(sorted.take(order.len() as int) == sorted);
    let mut out = String::from_str("fields of note: ");
    out.append(lines.as_str());
    out
}

/// The orders of `fields` never decrease.
pub open spec fn by_order(fields: Seq<(String, NoteInfoField)>) -> bool {
    forall|i: int, j: int|
        0 <= i < j < fields.len() ==> (#[trigger] fields[i]).1.order <= (
        #[trigger] fields[j]).1.order
}

/// A field put in its place among fields that stand by order leaves them by
/// order; nothing is lost and nothing else is added.
pub proof fn lemma_insert_by_order(sorted: Seq<(String, NoteInfoField)>, field: (String, NoteInfoField))
    requires
        by_order(sorted),
    ensures
        by_order(insert_by_order(sorted, field)),
        insert_by_order(sorted, field).len() == sorted.len() + 1,
        insert_by_order(sorted, field).contains(field),
        forall|k: int|
            0 <= k < sorted.len() ==> insert_by_order(sorted, field).contains(#[trigger] sorted[k]),
        forall|k: int|
            0 <= k < insert_by_order(sorted, field).len() ==> (#[trigger] insert_by_order(
                sorted,
                field,
            )[k]) == field || sorted.contains(insert_by_order(sorted, field)[k]),
    decreases sorted.len(),
{
    let out = insert_by_order(sorted, field);
    if sorted.len() == 0 {
        assert(out[0] == field);
    } else if sorted.last().1.order <= field.1.order {
        assert(out[sorted.len() as int] == field);
        assert forall|k: int| 0 <= k < sorted.len() implies out.contains(#[trigger] sorted[k]) by {
            assert(out[k] == sorted[k]);
        }
        assert forall|k: int| 0 <= k < out.len() implies (#[trigger] out[k]) == field
            || sorted.contains(out[k]) by {
            if k < sorted.len() {
                assert(sorted[k] == out[k]);
            }
        }
        assert forall|i: int, j: int| 0 <= i < j < out.len() implies (#[trigger] out[i]).1.order
            <= (#[trigger] out[j]).1.order by {
            assert(out[i] == sorted[i]);
            if j < sorted.len() {
                assert(out[j] == sorted[j]);
            } else {
                assert(sorted[i].1.order <= sorted.last().1.order || i == sorted.len() - 1);
            }
        }
    } else {
        let head = sorted.drop_last();
        let last = sorted.last();
        assert(by_order(head)) by {
            assert forall|i: int, j: int| 0 <= i < j < head.len() implies (
            #[trigger] head[i]).1.order <= (#[trigger] head[j]).1.order by {
                assert(head[i] == sorted[i] && head[j] == sorted[j]);
            }
        }
        lemma_insert_by_order(head, field);
        let inner = insert_by_order(head, field);
        assert(out == inner.push(last));
        let at = choose|at: int| 0 <= at < inner.len() && inner[at] == field;
        assert(out[at] == field);
        assert forall|k: int| 0 <= k < sorted.len() implies out.contains(#[trigger] sorted[k]) by {
            if k < head.len() {
                assert(head[k] == sorted[k]);
                let m = choose|m: int| 0 <= m < inner.len() && inner[m] == head[k];
                assert(out[m] == sorted[k]);
            } else {
                assert(out[inner.len() as int] == sorted[k]);
            }
        }
        assert forall|k: int| 0 <= k < out.len() implies (#[trigger] out[k]) == field
            || sorted.contains(out[k]) by {
            if k < inner.len() {
                assert(out[k] == inner[k]);
                if inner[k] != field {
                    let m = choose|m: int| 0 <= m < head.len() && head[m] == inner[k];
                    assert(sorted[m] == out[k]);
                }
            } else {
                assert(sorted[sorted.len() - 1] == out[k]);
            }
        }
        assert forall|i: int, j: int| 0 <= i < j < out.len() implies (#[trigger] out[i]).1.order
            <= (#[trigger] out[j]).1.order by {
            assert(out[i] == inner[i]);
            if j < inner.len() {
                assert(out[j] == inner[j]);
            } else {
                if inner[i] != field {
                    let m = choose|m: int| 0 <= m < head.len() && head[m] == inner[i];
                    assert(sorted[m] == inner[i]);
                    assert(sorted[m].1.order <= sorted[sorted.len() - 1].1.order);
                }
            }
        }
    }
}

/// Sorting leaves the fields by order and keeps every field.
pub proof fn law_sorted_fields(fields: Seq<(String, NoteInfoField)>)
    ensures
        by_order(sort_by_order(fields)),
        sort_by_order(fields).len() == fields.len(),
        forall|k: int| 0 <= k < fields.len() ==> sort_by_order(fields).contains(#[trigger] fields[k]),
        forall|k: int|
            0 <= k < fields.len() ==> fields.contains(#[trigger] sort_by_order(fields)[k]),
    decreases fields.len(),
{
    if fields.len() > 0 {
        let head = fields.drop_last();
        law_sorted_fields(head);
        lemma_insert_by_order(sort_by_order(head), fields.last());
        let out = sort_by_order(fields);
        assert forall|k: int| 0 <= k < fields.len() implies out.contains(#[trigger] fields[k]) by {
            if k < head.len() {
                assert(head[k] == fields[k]);
                let m = choose|m: int|
                    0 <= m < sort_by_order(head).len() && sort_by_order(head)[m] == head[k];
                assert(out.contains(sort_by_order(head)[m]));
            }
        }
        assert forall|k: int| 0 <= k < fields.len() implies fields.contains(#[trigger] out[k]) by {
            if out[k] == fields.last() {
                assert(fields[fields.len() - 1] == out[k]);
            } else {
                let m = choose|m: int|
                    0 <= m < sort_by_order(head).len() && sort_by_order(head)[m] == out[k];
                let n = choose|n: int| 0 <= n < head.len() && head[n] == sort_by_order(head)[m];
                assert(fields[n] == out[k]);
            }
        }
    }
}

} // verus!
