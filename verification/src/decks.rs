//! The decks that a document needs.
//!
//! A deck name is a path of segments separated by `::`. A note in deck
//! `A::B::C` needs the decks `A`, `A::B` and `A::B::C`. The decks to create
//! are those that the document needs and the store does not have, each once,
//! parents before children.

use crate::parse_file::{
    parse, parse_document, DocumentView, ParseError, ParseErrorView, FOOTER, HEADER,
};
use crate::sync::has_name;
use crate::text::{find, find_exec, lemma_find, lemma_find_in_rest, to_chars, to_string};
use vstd::prelude::*;

verus! {

/// The separator of the segments of a deck name.
pub open spec fn separator() -> Seq<char> {
    seq![':', ':']
}

/// The segments of `name`: what stands between the separators, taken from
/// the left. A name without separator is one segment.
pub open spec fn segments(name: Seq<char>) -> Seq<Seq<char>>
    decreases name.len(),
    via segments_decreases
{
    let at = find(name, 0, separator());
    if 0 <= at < name.len() {
        seq![name.take(at)] + segments(name.skip(at + 2))
    } else {
        seq![name]
    }
}

/// `prefix` extended by one segment.
pub open spec fn extend(prefix: Seq<char>, segment: Seq<char>) -> Seq<char> {
    if prefix.len() > 0 {
        prefix + separator() + segment
    } else {
        segment
    }
}

/// The deck names that the segments give one after the other, starting from
/// `prefix`.
pub open spec fn paths(prefix: Seq<char>, parts: Seq<Seq<char>>) -> Seq<Seq<char>>
    decreases parts.len(),
{
    if parts.len() == 0 {
        Seq::empty()
    } else {
        seq![extend(prefix, parts[0])] + paths(extend(prefix, parts[0]), parts.drop_first())
    }
}

/// The deck `name` and the decks above it, the topmost first.
pub open spec fn deck_with_parents(name: Seq<char>) -> Seq<Seq<char>> {
    paths(Seq::empty(), segments(name))
}

/// The decks that `used` needs, each with its parents, in order.
pub open spec fn needed_decks(used: Seq<Seq<char>>) -> Seq<Seq<char>>
    decreases used.len(),
{
    if used.len() == 0 {
        Seq::empty()
    } else {
        needed_decks(used.drop_last()) + deck_with_parents(used.last())
    }
}

/// `chosen` followed by those of `candidates` that are neither available nor
/// chosen already.
pub open spec fn missing(
    candidates: Seq<Seq<char>>,
    available: Seq<Seq<char>>,
    chosen: Seq<Seq<char>>,
) -> Seq<Seq<char>>
    decreases candidates.len(),
{
    if candidates.len() == 0 {
        chosen
    } else if available.contains(candidates[0]) || chosen.contains(candidates[0]) {
        missing(candidates.drop_first(), available, chosen)
    } else {
        missing(candidates.drop_first(), available, chosen.push(candidates[0]))
    }
}

/// The decks to create for notes in the decks `used`, given the decks that
/// the store has.
pub open spec fn to_create(used: Seq<Seq<char>>, available: Seq<Seq<char>>) -> Seq<Seq<char>> {
    missing(needed_decks(used), available, Seq::empty())
}

/// The deck of each note.
pub open spec fn decks_of(document: DocumentView) -> Seq<Seq<char>> {
    Seq::new(document.notes.len(), |i: int| document.notes[i].deck)
}

#[via_fn]
proof fn segments_decreases(name: Seq<char>) {
    lemma_find(name, 0, separator());
}

/// The deck `name` and the decks above it, the topmost first.
pub fn deck_prefixes(name: &str) -> (out: Vec<String>)
    ensures
        out.deep_view() == deck_with_parents(name@),
{
    let text = to_chars(name);
    let sep: Vec<char> = vec![':', ':'];
    assert(sep@ == separator());
    let mut out: Vec<String> = Vec::new();
    let mut prefix = String::new();
    let mut from: usize = 0;
    let mut done = false;
    assert(text@.skip(0) == text@);
    assert(out.deep_view() + paths(prefix@, segments(text@)) == paths(
        Seq::empty(),
        segments(text@),
    ));
    while !done
        invariant
            from <= text.len(),
            sep@ == separator(),
            !done ==> out.deep_view() + paths(prefix@, segments(text@.skip(from as int))) == paths(
                Seq::empty(),
                segments(text@),
            ),
            done ==> out.deep_view() == paths(Seq::empty(), segments(text@)),
        decreases text.len() - from, !done as int,
    {
        let ghost rest = text@.skip(from as int);
        let ghost before = out.deep_view();
        let at = find_exec(&text, from, &sep);
        proof {
            lemma_find(text@, from as int, separator());
            lemma_find(rest, 0, separator());
            lemma_find_in_rest(text@, from as int, separator());
        }
        let segment = to_string(&text, from, at);
        assert(text@.subrange(from as int, at as int) == rest.take(at - from));
        let ghost old_prefix = prefix@;
        if prefix.as_str().is_empty() {
            prefix = segment;
        } else {
            prefix.append("::");
            proof {
                reveal_strlit("::");
                assert("::"@ == separator());
            }
            prefix.append(segment.as_str());
        }
        assert(prefix@ == extend(old_prefix, rest.take(at - from)));
        out.push(prefix.clone());
        assert(out.deep_view() =~= before.push(prefix@));
        if at < text.len() {
            proof {
                assert(rest.skip(at - from + 2) == text@.skip(at + 2));
                let parts = segments(rest);
                assert(parts == seq![rest.take(at - from)] + segments(text@.skip(at + 2)));
                assert(parts[0] == rest.take(at - from));
                assert(parts.drop_first() == segments(text@.skip(at + 2)));
                assert(before.push(prefix@) + paths(prefix@, segments(text@.skip(at + 2)))
                    == before + (seq![prefix@] + paths(prefix@, segments(text@.skip(at + 2)))));
            }
            from = at + 2;
        } else {
            proof {
                let parts = segments(rest);
                assert(rest.take(at - from) == rest);
                assert(parts == seq![rest]);
                assert(parts[0] == rest);
                assert(parts.drop_first() == Seq::<Seq<char>>::empty());
                assert(paths(prefix@, parts.drop_first()) == Seq::<Seq<char>>::empty());
                assert(before.push(prefix@) == before + (seq![prefix@] + Seq::<Seq<char>>::empty()));
            }
            done = true;
        }
    }
    out
}

/// The decks to create for notes in the decks `used`, given the decks that
/// the store has: each needed deck that is not available, once, in the order
/// in which it is first needed.
pub fn decks_to_create(used: &Vec<String>, available: &Vec<String>) -> (out: Vec<String>)
    ensures
        out.deep_view() == to_create(used.deep_view(), available.deep_view()),
{
    let mut needed: Vec<String> = Vec::new();
    let mut i: usize = 0;
    let ghost all = used.deep_view();
    assert(all.take(0) == Seq::<Seq<char>>::empty());
    assert(needed.deep_view() =~= Seq::<Seq<char>>::empty());
    while i < used.len()
        invariant
            i <= used.len(),
            all == used.deep_view(),
            needed.deep_view() == needed_decks(all.take(i as int)),
        decreases used.len() - i,
    {
        let mut more = deck_prefixes(used[i].as_str());
        let ghost before = needed.deep_view();
        let ghost added = more.deep_view();
        proof {
            let upto = all.take(i + 1);
            assert(upto.drop_last() == all.take(i as int));
            assert(upto.last() == used[i as int]@);
        }
        let mut k: usize = 0;
        while k < more.len()
            invariant
                k <= more.len(),
                added == more.deep_view(),
                needed.deep_view() == before + added.take(k as int),
            decreases more.len() - k,
        {
            let ghost so_far = needed.deep_view();
            needed.push(more[k].clone());
            proof {
                assert(needed.deep_view() =~= so_far.push(added[k as int]));
                assert(added.take(k + 1) == added.take(k as int).push(added[k as int]));
            }
            k += 1;
        }
        assert(added.take(more.len() as int) == added);
        i += 1;
    }
    assert(all.take(used.len() as int) == all);
    let mut out: Vec<String> = Vec::new();
    let mut j: usize = 0;
    let ghost candidates = needed.deep_view();
    assert(candidates.skip(0) == candidates);
    assert(out.deep_view() =~= Seq::<Seq<char>>::empty());
    while j < needed.len()
        invariant
            j <= needed.len(),
            candidates == needed.deep_view(),
            missing(candidates.skip(j as int), available.deep_view(), out.deep_view()) == missing(
                candidates,
                available.deep_view(),
                Seq::empty(),
            ),
        decreases needed.len() - j,
    {
        let ghost rest = candidates.skip(j as int);
        let ghost chosen = out.deep_view();
        proof {
            assert(rest[0] == needed[j as int]@);
            assert(rest.drop_first() == candidates.skip(j + 1));
        }
        if !has_name(available, &needed[j]) && !has_name(&out, &needed[j]) {
            out.push(needed[j].clone());
            assert(out.deep_view() =~= chosen.push(needed[j as int]@));
        }
        j += 1;
    }
    out
}

/// The deck of each note of a document framed by `HEADER` and `FOOTER`, in
/// order.
pub fn get_used_decks(content: String) -> (r: Result<Vec<String>, ParseError>)
    ensures
        match r {
            Ok(decks) => parse(content@, HEADER@, FOOTER@) matches Ok(document)
                && decks.deep_view() == decks_of(document),
            Err(e) => parse(content@, HEADER@, FOOTER@) == Err::<DocumentView, ParseErrorView>(e@),
        },
{
    let document = match parse_document(content.as_str(), HEADER, FOOTER) {
        Ok(document) => document,
        Err(e) => {
            return Err(e);
        },
    };
    let mut decks: Vec<String> = Vec::new();
    let mut i: usize = 0;
    while i < document.notes.len()
        invariant
            i <= document.notes.len(),
            decks.len() == i,
            forall|k: int| 0 <= k < i ==> (#[trigger] decks[k])@ == document.notes[k].deck@,
        decreases document.notes.len() - i,
    {
        decks.push(document.notes[i].deck.clone());
        i += 1;
    }
    assert(decks.deep_view() =~= decks_of(document@));
    Ok(decks)
}

/// No deck to create is available already, and none is listed twice.
pub proof fn law_created_decks_are_new(
    candidates: Seq<Seq<char>>,
    available: Seq<Seq<char>>,
    chosen: Seq<Seq<char>>,
)
    requires
        forall|k: int| 0 <= k < chosen.len() ==> !available.contains(#[trigger] chosen[k]),
        forall|a: int, b: int| 0 <= a < b < chosen.len() ==> #[trigger] chosen[a] != #[trigger] chosen[b],
    ensures
        forall|k: int|
            0 <= k < missing(candidates, available, chosen).len() ==> !available.contains(
                #[trigger] missing(candidates, available, chosen)[k],
            ),
        forall|a: int, b: int|
            0 <= a < b < missing(candidates, available, chosen).len() ==> #[trigger] missing(
                candidates,
                available,
                chosen,
            )[a] != #[trigger] missing(candidates, available, chosen)[b],
    decreases candidates.len(),
{
    let result = missing(candidates, available, chosen);
    if candidates.len() > 0 {
        let more = if available.contains(candidates[0]) || chosen.contains(candidates[0]) {
            chosen
        } else {
            chosen.push(candidates[0])
        };
        assert(result == missing(candidates.drop_first(), available, more));
        assert forall|k: int| 0 <= k < more.len() implies !available.contains(#[trigger] more[k]) by {
            if k < chosen.len() {
                assert(more[k] == chosen[k]);
            }
        }
        assert forall|a: int, b: int| 0 <= a < b < more.len() implies #[trigger] more[a]
            != #[trigger] more[b] by {
            assert(chosen[a] == more[a]);
            if b == chosen.len() {
                assert(chosen.contains(more[a]));
            } else {
                assert(chosen[b] == more[b]);
            }
        }
        law_created_decks_are_new(candidates.drop_first(), available, more);
    } else {
        assert(result == chosen);
    }
}

/// Every needed deck is available or among the decks to create.
pub proof fn law_needed_decks_are_covered(
    candidates: Seq<Seq<char>>,
    available: Seq<Seq<char>>,
    chosen: Seq<Seq<char>>,
)
    ensures
        forall|k: int|
            0 <= k < chosen.len() ==> missing(candidates, available, chosen).contains(
                #[trigger] chosen[k],
            ),
        forall|k: int|
            0 <= k < candidates.len() ==> available.contains(#[trigger] candidates[k]) || missing(
                candidates,
                available,
                chosen,
            ).contains(candidates[k]),
    decreases candidates.len(),
{
    let result = missing(candidates, available, chosen);
    if candidates.len() == 0 {
        assert forall|k: int| 0 <= k < chosen.len() implies result.contains(#[trigger] chosen[k]) by {
            assert(result[k] == chosen[k]);
        }
    } else {
        let more = if available.contains(candidates[0]) || chosen.contains(candidates[0]) {
            chosen
        } else {
            chosen.push(candidates[0])
        };
        law_needed_decks_are_covered(candidates.drop_first(), available, more);
        assert forall|k: int| 0 <= k < chosen.len() implies result.contains(#[trigger] chosen[k]) by {
            assert(more[k] == chosen[k]);
        }
        assert forall|k: int| 0 <= k < candidates.len() implies available.contains(
            #[trigger] candidates[k],
        ) || result.contains(candidates[k]) by {
            if k == 0 {
                if !available.contains(candidates[0]) {
                    if chosen.contains(candidates[0]) {
                        let m = choose|m: int| 0 <= m < chosen.len() && chosen[m] == candidates[0];
                        assert(more[m] == candidates[0]);
                    } else {
                        assert(more[chosen.len() as int] == candidates[0]);
                    }
                }
            } else {
                assert(candidates.drop_first()[k - 1] == candidates[k]);
            }
        }
    }
}

} // verus!
