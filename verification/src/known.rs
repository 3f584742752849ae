//! The known notes, rebuilt from what the store reports.
//!
//! The store describes its notes in one list and their cards in another, the
//! cards of the first note first. A note takes its deck from its cards, which
//! must agree on it, and its question from its last card.

use crate::api::{CardInfo, NoteInfo, NoteInfoField};
use crate::note::{distinct_names, Note, NoteView};
use vstd::prelude::*;

verus! {

/// Why the reports of the store do not make up a list of notes.
#[derive(Clone, Copy, Debug, PartialEq, Eq, Structural)]
pub enum AssembleError {
    /// The store reported another number of cards than the notes list.
    CardCount { expected: usize, found: usize },
    /// The note with this identifier has no card, and so no deck.
    NoCards { note_id: usize },
    /// The cards of the note with this identifier lie in different decks.
    DeckMismatch { note_id: usize },
}

/// The identifiers of the cards of all notes, in order.
pub open spec fn all_card_ids(infos: Seq<NoteInfo>) -> Seq<usize>
    decreases infos.len(),
{
    if infos.len() == 0 {
        Seq::empty()
    } else {
        all_card_ids(infos.drop_last()) + infos.last().cards@
    }
}

/// The fields of a stored note: each name with its value.
pub open spec fn stored_fields(fields: Seq<(String, NoteInfoField)>) -> Seq<(Seq<char>, Seq<char>)> {
    Seq::new(fields.len(), |i: int| (fields[i].0@, fields[i].1.value@))
}

/// In each report, no field name occurs twice.
pub open spec fn unique_field_names(infos: Seq<NoteInfo>) -> bool {
    forall|k: int|
        0 <= k < infos.len() ==> distinct_names(stored_fields((#[trigger] infos[k]).fields@))
}

/// All of `cards` lie in the deck of the first.
pub open spec fn same_deck(cards: Seq<CardInfo>) -> bool {
    forall|k: int| 0 <= k < cards.len() ==> (#[trigger] cards[k]).deck_name@ == cards[0].deck_name@
}

/// The note that `info` and its cards describe.
pub open spec fn stored_note(info: NoteInfo, cards: Seq<CardInfo>) -> NoteView {
    NoteView {
        id: Some(info.note_id),
        deck: cards[0].deck_name@,
        model: info.model_name@,
        fields: stored_fields(info.fields@),
        tags: info.tags.deep_view(),
        question: Some(cards.last().question@),
    }
}

/// The notes that `infos` describe, the cards of the first note standing
/// first in `cards`. The first note, in order, without a card or with cards
/// in different decks ends the assembly with its error.
pub open spec fn assemble(infos: Seq<NoteInfo>, cards: Seq<CardInfo>) -> Result<
    Seq<NoteView>,
    AssembleError,
>
    decreases infos.len(),
{
    if infos.len() == 0 {
        Ok(Seq::empty())
    } else {
        let info = infos[0];
        let mine = cards.take(info.cards.len() as int);
        if info.cards.len() == 0 {
            Err(AssembleError::NoCards { note_id: info.note_id })
        } else if !same_deck(mine) {
            Err(AssembleError::DeckMismatch { note_id: info.note_id })
        } else {
            match assemble(infos.drop_first(), cards.skip(info.cards.len() as int)) {
                Ok(rest) => Ok(seq![stored_note(info, mine)] + rest),
                Err(e) => Err(e),
            }
        }
    }
}

/// The known notes that the reports of the store describe; an error where
/// the number of cards is not the number that the notes list.
pub open spec fn known_from(infos: Seq<NoteInfo>, cards: Seq<CardInfo>) -> Result<
    Seq<NoteView>,
    AssembleError,
> {
    if cards.len() != all_card_ids(infos).len() {
        Err(
            AssembleError::CardCount {
                expected: all_card_ids(infos).len() as usize,
                found: cards.len() as usize,
            },
        )
    } else {
        assemble(infos, cards)
    }
}

/// Whether no name occurs twice among `fields`.
fn names_are_unique(fields: &Vec<(String, NoteInfoField)>) -> (r: bool)
    ensures
        r == distinct_names(stored_fields(fields@)),
{
    let ghost names = stored_fields(fields@);
    let mut j: usize = 0;
    while j < fields.len()
        invariant
            j <= fields.len(),
            names == stored_fields(fields@),
            forall|a: int, b: int| 0 <= a < b < j ==> (#[trigger] names[a]).0 != (#[trigger] names[b]).0,
        decreases fields.len() - j,
    {
        let mut i: usize = 0;
        while i < j
            invariant
                i <= j < fields.len(),
                names == stored_fields(fields@),
                forall|a: int| 0 <= a < i ==> (#[trigger] names[a]).0 != names[j as int].0,
            decreases j - i,
        {
            if fields[i].0 == fields[j].0 {
                assert(names[i as int].0 == names[j as int].0);
                return false;
            }
            i += 1;
        }
        j += 1;
    }
    true
}

/// Whether, in each report, no field name occurs twice.
pub fn have_unique_field_names(infos: &Vec<NoteInfo>) -> (r: bool)
    ensures
        r == unique_field_names(infos@),
{
    let mut k: usize = 0;
    while k < infos.len()
        invariant
            k <= infos.len(),
            forall|m: int|
                0 <= m < k ==> distinct_names(stored_fields((#[trigger] infos@[m]).fields@)),
        decreases infos.len() - k,
    {
        if !names_are_unique(&infos[k].fields) {
            return false;
        }
        k += 1;
    }
    true
}

/// The identifiers of the cards of all notes, in order: what to ask the
/// store for.
pub fn card_ids(infos: &Vec<NoteInfo>) -> (ids: Vec<usize>)
    ensures
        ids@ == all_card_ids(infos@),
{
    let mut ids: Vec<usize> = Vec::new();
    let mut i: usize = 0;
    assert(infos@.take(0) == Seq::<NoteInfo>::empty());
    while i < infos.len()
        invariant
            i <= infos.len(),
            ids@ == all_card_ids(infos@.take(i as int)),
        decreases infos.len() - i,
    {
        let cards = &infos[i].cards;
        let ghost before = ids@;
        let mut j: usize = 0;
        while j < cards.len()
            invariant
                j <= cards.len(),
                ids@ == before + cards@.take(j as int),
            decreases cards.len() - j,
        {
            ids.push(cards[j]);
            assert(cards@.take(j + 1) == cards@.take(j as int).push(cards@[j as int]));
            j += 1;
        }
        proof {
            assert(cards@.take(cards.len() as int) == cards@);
            let upto = infos@.take(i + 1);
            assert(upto.drop_last() == infos@.take(i as int));
            assert(upto.last() == infos@[i as int]);
        }
        i += 1;
    }
    assert(infos@.take(infos.len() as int) == infos@);
    ids
}

/// Whether the cards `cards[from..to]` all lie in the deck of the first.
fn cards_share_deck(cards: &Vec<CardInfo>, from: usize, to: usize) -> (r: bool)
    requires
        from < to <= cards.len(),
    ensures
        r == same_deck(cards@.subrange(from as int, to as int)),
{
    let ghost mine = cards@.subrange(from as int, to as int);
    let mut k: usize = from + 1;
    while k < to
        invariant
            from < k <= to <= cards.len(),
            mine == cards@.subrange(from as int, to as int),
            forall|m: int| 0 <= m < k - from ==> (#[trigger] mine[m]).deck_name@ == mine[0].deck_name@,
        decreases to - k,
    {
        if cards[k].deck_name != cards[from].deck_name {
            assert(mine[k - from] == cards@[k as int]);
            assert(mine[0] == cards@[from as int]);
            return false;
        }
        assert(mine[k - from] == cards@[k as int]);
        assert(mine[0] == cards@[from as int]);
        k += 1;
    }
    true
}

/// The note that `info` and the cards `cards[from..to]` describe.
fn stored_note_of(info: &NoteInfo, cards: &Vec<CardInfo>, from: usize, to: usize) -> (note: Note)
    requires
        from < to <= cards.len(),
    ensures
        note@ == stored_note(*info, cards@.subrange(from as int, to as int)),
{
    let ghost mine = cards@.subrange(from as int, to as int);
    assert(mine[0] == cards@[from as int]);
    assert(mine.last() == cards@[to - 1]);
    let mut fields: Vec<(String, String)> = Vec::new();
    let mut i: usize = 0;
    while i < info.fields.len()
        invariant
            i <= info.fields.len(),
            fields.len() == i,
            forall|k: int|
                0 <= k < i ==> (#[trigger] fields[k]).deep_view() == stored_fields(info.fields@)[k],
        decreases info.fields.len() - i,
    {
        fields.push((info.fields[i].0.clone(), info.fields[i].1.value.clone()));
        i += 1;
    }
    assert(fields.deep_view() =~= stored_fields(info.fields@));
    let mut tags: Vec<String> = Vec::new();
    let mut j: usize = 0;
    while j < info.tags.len()
        invariant
            j <= info.tags.len(),
            tags.len() == j,
            forall|k: int| 0 <= k < j ==> (#[trigger] tags[k])@ == info.tags[k]@,
        decreases info.tags.len() - j,
    {
        tags.push(info.tags[j].clone());
        j += 1;
    }
    assert(tags.deep_view() =~= info.tags.deep_view());
    Note {
        id: Some(info.note_id),
        deck: cards[from].deck_name.clone(),
        model: info.model_name.clone(),
        fields,
        tags,
        question: Some(cards[to - 1].question.clone()),
    }
}

/// The known notes that the reports of the store describe. The store lists
/// the fields of a note by name, each name once; the notes built keep that.
pub fn known_notes(infos: &Vec<NoteInfo>, cards: &Vec<CardInfo>) -> (r: Result<
    Vec<Note>,
    AssembleError,
>)
    requires
        unique_field_names(infos@),
    ensures
        match r {
            Ok(notes) => known_from(infos@, cards@) == Ok::<Seq<NoteView>, AssembleError>(
                notes.deep_view(),
            ) && forall|k: int|
                0 <= k < notes.len() ==> distinct_names((#[trigger] notes[k])@.fields),
            Err(e) => known_from(infos@, cards@) == Err::<Seq<NoteView>, AssembleError>(e),
        },
{
    proof {
        if assemble(infos@, cards@) is Ok {
            law_known_notes_are_identified(infos@, cards@);
        }
    }
    let expected = card_ids(infos).len();
    if cards.len() != expected {
        return Err(AssembleError::CardCount { expected, found: cards.len() });
    }
    let mut notes: Vec<Note> = Vec::new();
    let mut i: usize = 0;
    let mut from: usize = 0;
    assert(infos@.skip(0) == infos@);
    assert(cards@.skip(0) == cards@);
    assert(notes.deep_view() =~= Seq::<NoteView>::empty());
    while i < infos.len()
        invariant
            i <= infos.len(),
            from <= cards.len(),
            cards.len() == all_card_ids(infos@).len(),
            cards.len() - from == all_card_ids(infos@.skip(i as int)).len(),
            match assemble(infos@.skip(i as int), cards@.skip(from as int)) {
                Ok(rest) => assemble(infos@, cards@) == Ok::<Seq<NoteView>, AssembleError>(
                    notes.deep_view() + rest,
                ),
                Err(e) => assemble(infos@, cards@) == Err::<Seq<NoteView>, AssembleError>(e),
            },
        decreases infos.len() - i,
    {
        let info = &infos[i];
        let count = info.cards.len();
        let ghost rest_infos = infos@.skip(i as int);
        let ghost rest_cards = cards@.skip(from as int);
        proof {
            assert(rest_infos[0] == *info);
            assert(rest_infos.drop_first() == infos@.skip(i + 1));
            lemma_card_ids_first(rest_infos);
        }
        if count == 0 {
            return Err(AssembleError::NoCards { note_id: info.note_id });
        }
        let to = from + count;
        proof {
            assert(rest_cards.take(count as int) == cards@.subrange(from as int, to as int));
            assert(rest_cards.skip(count as int) == cards@.skip(to as int));
        }
        if !cards_share_deck(cards, from, to) {
            return Err(AssembleError::DeckMismatch { note_id: info.note_id });
        }
        let note = stored_note_of(info, cards, from, to);
        let ghost done = notes.deep_view();
        notes.push(note);
        proof {
            assert(notes.deep_view() =~= done.push(note@));
            match assemble(infos@.skip(i + 1), cards@.skip(to as int)) {
                Ok(rest) => {
                    assert(done + (seq![note@] + rest) == done.push(note@) + rest);
                },
                Err(_) => {},
            }
        }
        from = to;
        i += 1;
    }
    assert(notes.deep_view() + Seq::<NoteView>::empty() == notes.deep_view());
    assert forall|k: int| 0 <= k < notes.len() implies distinct_names(
        (#[trigger] notes[k])@.fields,
    ) by {
        assert(notes.deep_view()[k] == notes[k]@);
        assert(distinct_names(stored_fields(infos@[k].fields@)));
    }
    Ok(notes)
}

/// The cards of all notes are those of the first followed by those of the
/// others.
pub proof fn lemma_card_ids_first(infos: Seq<NoteInfo>)
    requires
        infos.len() > 0,
    ensures
        all_card_ids(infos) == infos[0].cards@ + all_card_ids(infos.drop_first()),
    decreases infos.len(),
{
    if infos.len() == 1 {
        assert(infos.drop_last().len() == 0);
        assert(infos.drop_first().len() == 0);
        assert(infos.last() == infos[0]);
        assert(all_card_ids(infos.drop_last()) == Seq::<usize>::empty());
        assert(all_card_ids(infos) == Seq::<usize>::empty() + infos[0].cards@);
        assert(infos[0].cards@ + Seq::<usize>::empty() == infos[0].cards@);
        assert(Seq::<usize>::empty() + infos[0].cards@ == infos[0].cards@);
    } else {
        lemma_card_ids_first(infos.drop_last());
        assert(infos.drop_last()[0] == infos[0]);
        assert(infos.drop_last().drop_first() == infos.drop_first().drop_last());
        assert(infos.drop_first().last() == infos.last());
        assert((infos[0].cards@ + all_card_ids(infos.drop_first().drop_last()))
            + infos.last().cards@ == infos[0].cards@ + (all_card_ids(
            infos.drop_first().drop_last(),
        ) + infos.last().cards@));
    }
}

/// Every note rebuilt from the store carries the identifier, the model, the
/// fields and the tags of its report, and a question.
pub proof fn law_known_notes_are_identified(infos: Seq<NoteInfo>, cards: Seq<CardInfo>)
    requires
        assemble(infos, cards) is Ok,
    ensures
        assemble(infos, cards)->Ok_0.len() == infos.len(),
        forall|k: int|
            0 <= k < infos.len() ==> {
                &&& (#[trigger] assemble(infos, cards)->Ok_0[k]).id == Some(infos[k].note_id)
                &&& assemble(infos, cards)->Ok_0[k].model == infos[k].model_name@
                &&& assemble(infos, cards)->Ok_0[k].fields == stored_fields(infos[k].fields@)
                &&& assemble(infos, cards)->Ok_0[k].tags == infos[k].tags.deep_view()
                &&& assemble(infos, cards)->Ok_0[k].question is Some
            },
    decreases infos.len(),
{
    if infos.len() > 0 {
        let n = infos[0].cards.len() as int;
        law_known_notes_are_identified(infos.drop_first(), cards.skip(n));
        let rest = assemble(infos.drop_first(), cards.skip(n))->Ok_0;
        let all = assemble(infos, cards)->Ok_0;
        assert forall|k: int| 0 <= k < infos.len() implies {
            &&& (#[trigger] all[k]).id == Some(infos[k].note_id)
            &&& all[k].model == infos[k].model_name@
            &&& all[k].fields == stored_fields(infos[k].fields@)
            &&& all[k].tags == infos[k].tags.deep_view()
            &&& all[k].question is Some
        } by {
            if k > 0 {
                assert(all[k] == rest[k - 1]);
                assert(infos.drop_first()[k - 1] == infos[k]);
            }
        }
    }
}

} // verus!
