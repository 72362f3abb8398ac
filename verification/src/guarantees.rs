//! What holds of every search: its candidates are sound, each is found and
//! counted as the search goes, and nothing is expanded twice.

use crate::candidate::distinct_words;
use crate::candidate::has_word;
use crate::candidate::CandidateView;
use crate::common::carries;
use crate::common::edits_of;
use crate::common::is_neighbor;
use crate::common::is_skipped_replacement;
use crate::common::lemma_edits_are_neighbors;
use crate::common::lemma_neighbors_are_made;
use crate::dynamic::discovered;
use crate::dynamic::expand;
use crate::dynamic::expand_all;
use crate::dynamic::offer;
use crate::dynamic::offer_all;
use crate::dynamic::search_from;
use crate::dynamic::SearchState;
use crate::ranking::lemma_ranked;
use crate::ranking::ranked;
use crate::stores::fresh_stores;
use crate::stores::is_dropped;
use crate::stores::publish_in;
use crate::stores::visit;
use crate::stores::StoresView;
use crate::support::normalized;
use vstd::prelude::*;

verus! {

/// What holds of the results of every search: no word occurs twice, each
/// candidate carries the score that the lexicon holds for its word, and none
/// stands farther than `max_edit`.
pub open spec fn sound_results(
    lexicon: Map<Seq<char>, u32>,
    results: Seq<CandidateView>,
    max_edit: u8,
) -> bool {
    &&& distinct_words(results)
    &&& forall|i: int|
        0 <= i < results.len() ==> {
            &&& lexicon.contains_key((#[trigger] results[i]).word)
            &&& results[i].score == lexicon[results[i].word]
            &&& results[i].edit <= max_edit
        }
}

/// Emitting a candidate of the lexicon keeps the results sound and the word
/// of every earlier candidate among them; in active stores the word of the
/// candidate is among them afterwards.
pub proof fn lemma_publish_sound(
    lexicon: Map<Seq<char>, u32>,
    stores: StoresView,
    candidate: CandidateView,
    max_edit: u8,
)
    requires
        sound_results(lexicon, stores.results, max_edit),
        lexicon.contains_key(candidate.word),
        candidate.score == lexicon[candidate.word],
        candidate.edit <= max_edit,
    ensures
        sound_results(lexicon, publish_in(stores, candidate).results, max_edit),
        publish_in(stores, candidate).ready == stores.ready,
        publish_in(stores, candidate).visited == stores.visited,
        forall|w: Seq<char>|
            has_word(stores.results, w) ==> has_word(publish_in(stores, candidate).results, w),
        stores.ready ==> has_word(publish_in(stores, candidate).results, candidate.word),
{
    let after = publish_in(stores, candidate).results;
    if !is_dropped(stores, candidate) {
        assert(after == stores.results.push(candidate));
        assert forall|i: int, j: int| 0 <= i < j < after.len() implies (#[trigger] after[i]).word
            != (#[trigger] after[j]).word by {
            if j == stores.results.len() {
                assert(after[i] == stores.results[i]);
            } else {
                assert(after[i] == stores.results[i] && after[j] == stores.results[j]);
            }
        }
        assert forall|i: int| 0 <= i < after.len() implies {
            &&& lexicon.contains_key((#[trigger] after[i]).word)
            &&& after[i].score == lexicon[after[i].word]
            &&& after[i].edit <= max_edit
        } by {
            if i < stores.results.len() {
                assert(after[i] == stores.results[i]);
            }
        }
        assert forall|w: Seq<char>| has_word(stores.results, w) implies has_word(after, w) by {
            let i = choose|i: int|
                0 <= i < stores.results.len() && (#[trigger] stores.results[i]).word == w;
            assert(after[i].word == w);
        }
        assert(after[stores.results.len() as int].word == candidate.word);
    }
}

/// Offering a string keeps the results sound, the stores active, and the
/// word of every earlier candidate among the results; a string of the
/// lexicon is among them afterwards.
pub proof fn lemma_offer_sound(
    lexicon: Map<Seq<char>, u32>,
    state: SearchState,
    target: Seq<char>,
    marker: u32,
    edit: u8,
    forward: bool,
    max_edit: u8,
)
    requires
        sound_results(lexicon, state.stores.results, max_edit),
        edit <= max_edit,
    ensures
        sound_results(
            lexicon,
            offer(lexicon, state, target, marker, edit, forward).stores.results,
            max_edit,
        ),
        offer(lexicon, state, target, marker, edit, forward).stores.ready == state.stores.ready,
        forall|w: Seq<char>|
            has_word(state.stores.results, w) ==> has_word(
                offer(lexicon, state, target, marker, edit, forward).stores.results,
                w,
            ),
        state.stores.ready && lexicon.contains_key(target) ==> has_word(
            offer(lexicon, state, target, marker, edit, forward).stores.results,
            target,
        ),
{
    let visited = if forward {
        visit(state.stores, target)
    } else {
        state.stores
    };
    if lexicon.contains_key(target) {
        lemma_publish_sound(
            lexicon,
            visited,
            CandidateView { word: target, score: lexicon[target], edit },
            max_edit,
        );
    }
}

/// Offering a run of strings keeps the results sound, the stores active, and
/// the word of every earlier candidate among the results; every string of
/// the run that the lexicon holds is among them afterwards.
pub proof fn lemma_offer_all_sound(
    lexicon: Map<Seq<char>, u32>,
    state: SearchState,
    edits: Seq<(Seq<char>, u32)>,
    edit: u8,
    forward: bool,
    max_edit: u8,
)
    requires
        sound_results(lexicon, state.stores.results, max_edit),
        edit <= max_edit,
    ensures
        sound_results(
            lexicon,
            offer_all(lexicon, state, edits, edit, forward).stores.results,
            max_edit,
        ),
        offer_all(lexicon, state, edits, edit, forward).stores.ready == state.stores.ready,
        forall|w: Seq<char>|
            has_word(state.stores.results, w) ==> has_word(
                offer_all(lexicon, state, edits, edit, forward).stores.results,
                w,
            ),
        forall|k: int|
            0 <= k < edits.len() && state.stores.ready && lexicon.contains_key(
                (#[trigger] edits[k]).0,
            ) ==> has_word(
                offer_all(lexicon, state, edits, edit, forward).stores.results,
                edits[k].0,
            ),
    decreases edits.len(),
{
    if edits.len() > 0 {
        let head = edits.drop_last();
        let before = offer_all(lexicon, state, head, edit, forward);
        lemma_offer_all_sound(lexicon, state, head, edit, forward, max_edit);
        lemma_offer_sound(
            lexicon,
            before,
            edits.last().0,
            edits.last().1,
            edit,
            forward,
            max_edit,
        );
        let after = offer_all(lexicon, state, edits, edit, forward);
        assert forall|k: int|
            0 <= k < edits.len() && state.stores.ready && lexicon.contains_key(
                (#[trigger] edits[k]).0,
            ) implies has_word(after.stores.results, edits[k].0) by {
            if k < head.len() {
                assert(head[k] == edits[k]);
                assert(has_word(before.stores.results, edits[k].0));
            }
        }
    }
}

/// Expanding a word keeps the results sound, the stores active, and the word
/// of every earlier candidate among the results.
pub proof fn lemma_expand_sound(
    lexicon: Map<Seq<char>, u32>,
    state: SearchState,
    word: Seq<char>,
    edit: u8,
    max_edit: u8,
    marker: u32,
)
    requires
        sound_results(lexicon, state.stores.results, max_edit),
    ensures
        sound_results(
            lexicon,
            expand(lexicon, state, word, edit, max_edit, marker).stores.results,
            max_edit,
        ),
        expand(lexicon, state, word, edit, max_edit, marker).stores.ready == state.stores.ready,
        forall|w: Seq<char>|
            has_word(state.stores.results, w) ==> has_word(
                expand(lexicon, state, word, edit, max_edit, marker).stores.results,
                w,
            ),
{
    let clean = normalized(word);
    if edit < max_edit && clean.len() > 0 {
        if lexicon.contains_key(clean) {
            lemma_publish_sound(
                lexicon,
                state.stores,
                CandidateView { word: clean, score: lexicon[clean], edit },
                max_edit,
            );
        }
        let stores = if lexicon.contains_key(clean) {
            publish_in(state.stores, CandidateView { word: clean, score: lexicon[clean], edit })
        } else {
            state.stores
        };
        lemma_offer_all_sound(
            lexicon,
            SearchState { stores, queue: state.queue },
            edits_of(clean, marker),
            (edit + 1) as u8,
            edit + 1 < max_edit,
            max_edit,
        );
    }
}

/// Expanding a level keeps the results sound, the stores active, and the
/// word of every earlier candidate among the results.
pub proof fn lemma_expand_all_sound(
    lexicon: Map<Seq<char>, u32>,
    state: SearchState,
    level: Seq<(Seq<char>, u32)>,
    edit: u8,
    max_edit: u8,
)
    requires
        sound_results(lexicon, state.stores.results, max_edit),
    ensures
        sound_results(
            lexicon,
            expand_all(lexicon, state, level, edit, max_edit).stores.results,
            max_edit,
        ),
        expand_all(lexicon, state, level, edit, max_edit).stores.ready == state.stores.ready,
        forall|w: Seq<char>|
            has_word(state.stores.results, w) ==> has_word(
                expand_all(lexicon, state, level, edit, max_edit).stores.results,
                w,
            ),
    decreases level.len(),
{
    if level.len() > 0 {
        lemma_expand_all_sound(lexicon, state, level.drop_last(), edit, max_edit);
        lemma_expand_sound(
            lexicon,
            expand_all(lexicon, state, level.drop_last(), edit, max_edit),
            level.last().0,
            edit,
            max_edit,
            level.last().1,
        );
    }
}

/// A search keeps the results sound and the word of every earlier candidate
/// among them.
pub proof fn lemma_search_from_sound(
    lexicon: Map<Seq<char>, u32>,
    stores: StoresView,
    level: Seq<(Seq<char>, u32)>,
    edit: u8,
    max_edit: u8,
)
    requires
        sound_results(lexicon, stores.results, max_edit),
    ensures
        sound_results(lexicon, search_from(lexicon, stores, level, edit, max_edit).results, max_edit),
        forall|w: Seq<char>|
            has_word(stores.results, w) ==> has_word(
                search_from(lexicon, stores, level, edit, max_edit).results,
                w,
            ),
    decreases max_edit - edit,
{
    if edit < max_edit {
        let begun = SearchState { stores, queue: Seq::empty() };
        let next = expand_all(lexicon, begun, level, edit, max_edit);
        lemma_expand_all_sound(lexicon, begun, level, edit, max_edit);
        lemma_search_from_sound(lexicon, next.stores, next.queue, (edit + 1) as u8, max_edit);
    }
}

/// Among the candidates of a search no word occurs twice, each carries the
/// score that the lexicon holds for its word, and none stands farther than
/// the largest distance.
pub proof fn lemma_discovered_sound(lexicon: Map<Seq<char>, u32>, word: Seq<char>, max_edit: u8)
    ensures
        sound_results(lexicon, discovered(lexicon, word, max_edit), max_edit),
{
    lemma_search_from_sound(lexicon, fresh_stores(), seq![(word, 0u32)], 0, max_edit);
}

/// `longer` begins with the candidates of `shorter`, in their order.
pub open spec fn extends(shorter: Seq<CandidateView>, longer: Seq<CandidateView>) -> bool {
    &&& shorter.len() <= longer.len()
    &&& forall|i: int| 0 <= i < shorter.len() ==> (#[trigger] longer[i]) == shorter[i]
}

/// Offering a run of strings only adds to the results, and each candidate
/// that it adds carries one of the strings and the distance `edit`.
pub proof fn lemma_offer_all_origin(
    lexicon: Map<Seq<char>, u32>,
    state: SearchState,
    edits: Seq<(Seq<char>, u32)>,
    edit: u8,
    forward: bool,
)
    ensures
        extends(
            state.stores.results,
            offer_all(lexicon, state, edits, edit, forward).stores.results,
        ),
        forall|i: int|
            state.stores.results.len() <= i < offer_all(
                lexicon,
                state,
                edits,
                edit,
                forward,
            ).stores.results.len() ==> {
                &&& (#[trigger] offer_all(
                    lexicon,
                    state,
                    edits,
                    edit,
                    forward,
                ).stores.results[i]).edit == edit
                &&& carries(
                    edits,
                    offer_all(lexicon, state, edits, edit, forward).stores.results[i].word,
                )
            },
    decreases edits.len(),
{
    if edits.len() > 0 {
        let head = edits.drop_last();
        let before = offer_all(lexicon, state, head, edit, forward);
        let after = offer_all(lexicon, state, edits, edit, forward);
        lemma_offer_all_origin(lexicon, state, head, edit, forward);
        assert forall|i: int|
            state.stores.results.len() <= i < after.stores.results.len() implies {
            &&& (#[trigger] after.stores.results[i]).edit == edit
            &&& carries(edits, after.stores.results[i].word)
        } by {
            if i < before.stores.results.len() {
                assert(after.stores.results[i] == before.stores.results[i]);
                let k = choose|k: int|
                    0 <= k < head.len() && (#[trigger] head[k]).0 == before.stores.results[i].word;
                assert(edits[k] == head[k]);
            } else {
                assert(edits[edits.len() - 1].0 == after.stores.results[i].word);
            }
        }
    }
}

/// Expanding a word only adds to the results.
pub proof fn lemma_expand_extends(
    lexicon: Map<Seq<char>, u32>,
    state: SearchState,
    word: Seq<char>,
    edit: u8,
    max_edit: u8,
    marker: u32,
)
    ensures
        extends(
            state.stores.results,
            expand(lexicon, state, word, edit, max_edit, marker).stores.results,
        ),
{
    let clean = normalized(word);
    if edit < max_edit && clean.len() > 0 {
        let stores = if lexicon.contains_key(clean) {
            publish_in(state.stores, CandidateView { word: clean, score: lexicon[clean], edit })
        } else {
            state.stores
        };
        lemma_offer_all_origin(
            lexicon,
            SearchState { stores, queue: state.queue },
            edits_of(clean, marker),
            (edit + 1) as u8,
            edit + 1 < max_edit,
        );
    }
}

/// Expanding a level only adds to the results.
pub proof fn lemma_expand_all_extends(
    lexicon: Map<Seq<char>, u32>,
    state: SearchState,
    level: Seq<(Seq<char>, u32)>,
    edit: u8,
    max_edit: u8,
)
    ensures
        extends(
            state.stores.results,
            expand_all(lexicon, state, level, edit, max_edit).stores.results,
        ),
    decreases level.len(),
{
    if level.len() > 0 {
        lemma_expand_all_extends(lexicon, state, level.drop_last(), edit, max_edit);
        lemma_expand_extends(
            lexicon,
            expand_all(lexicon, state, level.drop_last(), edit, max_edit),
            level.last().0,
            edit,
            max_edit,
            level.last().1,
        );
    }
}

/// A search only adds to the results.
pub proof fn lemma_search_from_extends(
    lexicon: Map<Seq<char>, u32>,
    stores: StoresView,
    level: Seq<(Seq<char>, u32)>,
    edit: u8,
    max_edit: u8,
)
    ensures
        extends(stores.results, search_from(lexicon, stores, level, edit, max_edit).results),
    decreases max_edit - edit,
{
    if edit < max_edit {
        let begun = SearchState { stores, queue: Seq::empty() };
        let next = expand_all(lexicon, begun, level, edit, max_edit);
        lemma_expand_all_extends(lexicon, begun, level, edit, max_edit);
        lemma_search_from_extends(lexicon, next.stores, next.queue, (edit + 1) as u8, max_edit);
    }
}

/// A search that has no string to expand leaves the stores as they are.
pub proof fn lemma_idle_search(
    lexicon: Map<Seq<char>, u32>,
    stores: StoresView,
    edit: u8,
    max_edit: u8,
)
    ensures
        search_from(lexicon, stores, Seq::empty(), edit, max_edit) == stores,
    decreases max_edit - edit,
{
    if edit < max_edit {
        lemma_idle_search(lexicon, stores, (edit + 1) as u8, max_edit);
    }
}

/// The state after the first level of a search: the input was expanded.
pub open spec fn first_level(lexicon: Map<Seq<char>, u32>, word: Seq<char>, max_edit: u8) -> SearchState {
    expand(
        lexicon,
        SearchState { stores: fresh_stores(), queue: Seq::empty() },
        word,
        0,
        max_edit,
        0,
    )
}

/// A search begins by expanding the input and goes on from there.
pub proof fn lemma_first_level(lexicon: Map<Seq<char>, u32>, word: Seq<char>, max_edit: u8)
    requires
        max_edit >= 1,
    ensures
        discovered(lexicon, word, max_edit) == search_from(
            lexicon,
            first_level(lexicon, word, max_edit).stores,
            first_level(lexicon, word, max_edit).queue,
            1,
            max_edit,
        ).results,
{
    let level = seq![(word, 0u32)];
    let begun = SearchState { stores: fresh_stores(), queue: Seq::empty() };
    assert(level.drop_last() =~= Seq::<(Seq<char>, u32)>::empty());
    assert(expand_all(lexicon, begun, level.drop_last(), 0, max_edit) == begun);
    assert(expand_all(lexicon, begun, level, 0, max_edit) == first_level(
        lexicon,
        word,
        max_edit,
    ));
}

/// An input that is empty once normalized has no candidates.
pub proof fn lemma_blank_input(lexicon: Map<Seq<char>, u32>, word: Seq<char>, max_edit: u8)
    requires
        normalized(word).len() == 0,
    ensures
        discovered(lexicon, word, max_edit).len() == 0,
{
    if max_edit >= 1 {
        lemma_first_level(lexicon, word, max_edit);
        lemma_idle_search(lexicon, fresh_stores(), 1, max_edit);
    }
}

/// An empty lexicon yields no candidates.
pub proof fn lemma_empty_lexicon(word: Seq<char>, max_edit: u8)
    ensures
        discovered(Map::<Seq<char>, u32>::empty(), word, max_edit).len() == 0,
{
    let lexicon = Map::<Seq<char>, u32>::empty();
    let found = discovered(lexicon, word, max_edit);
    lemma_discovered_sound(lexicon, word, max_edit);
    if found.len() > 0 {
        assert(lexicon.contains_key(found[0].word));
    }
}

/// An input that the lexicon holds is the first candidate, at distance 0 and
/// with its score.
pub proof fn lemma_exact_word_found(lexicon: Map<Seq<char>, u32>, word: Seq<char>, max_edit: u8)
    requires
        max_edit >= 1,
        normalized(word).len() > 0,
        lexicon.contains_key(normalized(word)),
    ensures
        discovered(lexicon, word, max_edit).len() > 0,
        discovered(lexicon, word, max_edit)[0] == (CandidateView {
            word: normalized(word),
            score: lexicon[normalized(word)],
            edit: 0,
        }),
{
    let clean = normalized(word);
    let exact = CandidateView { word: clean, score: lexicon[clean], edit: 0 };
    let begun = SearchState { stores: fresh_stores(), queue: Seq::empty() };
    let stores = publish_in(fresh_stores(), exact);
    assert(!has_word(fresh_stores().results, clean));
    assert(stores.results == Seq::<CandidateView>::empty().push(exact));
    assert(stores.results[0] == exact);
    let first = first_level(lexicon, word, max_edit);
    lemma_first_level(lexicon, word, max_edit);
    lemma_offer_all_origin(
        lexicon,
        SearchState { stores, queue: begun.queue },
        edits_of(clean, 0),
        1,
        1 < max_edit,
    );
    assert(first.stores.results[0] == exact);
    lemma_search_from_extends(lexicon, first.stores, first.queue, 1, max_edit);
}

/// Every word of the lexicon that is one edit away from the input is among
/// the candidates, but for the one replacement that the generator leaves out.
pub proof fn lemma_neighbors_found(
    lexicon: Map<Seq<char>, u32>,
    word: Seq<char>,
    max_edit: u8,
    other: Seq<char>,
)
    requires
        max_edit >= 1,
        normalized(word).len() > 0,
        lexicon.contains_key(other),
        is_neighbor(normalized(word), other),
        !is_skipped_replacement(normalized(word), other),
    ensures
        has_word(discovered(lexicon, word, max_edit), other),
{
    let clean = normalized(word);
    let begun = SearchState { stores: fresh_stores(), queue: Seq::empty() };
    let first = first_level(lexicon, word, max_edit);
    lemma_first_level(lexicon, word, max_edit);
    assert(sound_results(lexicon, fresh_stores().results, max_edit));
    lemma_expand_sound(lexicon, begun, word, 0, max_edit, 0);
    if other == clean {
        lemma_exact_word_found(lexicon, word, max_edit);
        assert(discovered(lexicon, word, max_edit)[0].word == other);
    } else {
        let exact = CandidateView { word: clean, score: lexicon[clean], edit: 0 };
        let stores = if lexicon.contains_key(clean) {
            publish_in(fresh_stores(), exact)
        } else {
            fresh_stores()
        };
        if lexicon.contains_key(clean) {
            lemma_publish_sound(lexicon, fresh_stores(), exact, max_edit);
        }
        lemma_neighbors_are_made(clean, other);
        let edits = edits_of(clean, 0);
        let k = choose|k: int| 0 <= k < edits.len() && (#[trigger] edits[k]).0 == other;
        lemma_offer_all_sound(
            lexicon,
            SearchState { stores, queue: begun.queue },
            edits,
            1,
            1 < max_edit,
            max_edit,
        );
        assert(has_word(first.stores.results, edits[k].0));
        lemma_search_from_sound(lexicon, first.stores, first.queue, 1, max_edit);
    }
}

/// With the largest distance 1, every candidate is the input itself, at
/// distance 0, or one edit away from it, at distance 1.
pub proof fn lemma_single_edit(lexicon: Map<Seq<char>, u32>, word: Seq<char>, i: int)
    requires
        0 <= i < discovered(lexicon, word, 1).len(),
    ensures
        ({
            let found = discovered(lexicon, word, 1)[i];
            ||| found.word == normalized(word) && found.edit == 0
            ||| is_neighbor(normalized(word), found.word) && found.edit == 1
        }),
{
    let clean = normalized(word);
    let first = first_level(lexicon, word, 1);
    lemma_first_level(lexicon, word, 1);
    assert(discovered(lexicon, word, 1) == first.stores.results);
    if clean.len() > 0 {
        let exact = CandidateView { word: clean, score: lexicon[clean], edit: 0 };
        let stores = if lexicon.contains_key(clean) {
            publish_in(fresh_stores(), exact)
        } else {
            fresh_stores()
        };
        let state = SearchState { stores, queue: Seq::empty() };
        lemma_offer_all_origin(lexicon, state, edits_of(clean, 0), 1, false);
        let found = first.stores.results[i];
        if i < stores.results.len() {
            assert(found == stores.results[i]);
        } else {
            lemma_edits_are_neighbors(clean, 0, found.word);
        }
    }
}

/// Every candidate at distance 0 carries `clean`.
pub open spec fn exact_at_zero(results: Seq<CandidateView>, clean: Seq<char>) -> bool {
    forall|i: int|
        0 <= i < results.len() && (#[trigger] results[i]).edit == 0 ==> results[i].word == clean
}

proof fn lemma_expand_zero(
    lexicon: Map<Seq<char>, u32>,
    state: SearchState,
    word: Seq<char>,
    edit: u8,
    max_edit: u8,
    marker: u32,
    clean: Seq<char>,
)
    requires
        exact_at_zero(state.stores.results, clean),
        edit >= 1 || normalized(word) == clean,
    ensures
        exact_at_zero(expand(lexicon, state, word, edit, max_edit, marker).stores.results, clean),
{
    let own = normalized(word);
    if edit < max_edit && own.len() > 0 {
        let stores = if lexicon.contains_key(own) {
            publish_in(state.stores, CandidateView { word: own, score: lexicon[own], edit })
        } else {
            state.stores
        };
        assert forall|i: int|
            0 <= i < stores.results.len() && (#[trigger] stores.results[i]).edit
                == 0 implies stores.results[i].word == clean by {
            if i < state.stores.results.len() {
                assert(stores.results[i] == state.stores.results[i]);
            }
        }
        let begun = SearchState { stores, queue: state.queue };
        let after = offer_all(
            lexicon,
            begun,
            edits_of(own, marker),
            (edit + 1) as u8,
            edit + 1 < max_edit,
        );
        lemma_offer_all_origin(
            lexicon,
            begun,
            edits_of(own, marker),
            (edit + 1) as u8,
            edit + 1 < max_edit,
        );
        assert forall|i: int|
            0 <= i < after.stores.results.len() && (#[trigger] after.stores.results[i]).edit
                == 0 implies after.stores.results[i].word == clean by {
            if i < stores.results.len() {
                assert(after.stores.results[i] == stores.results[i]);
            }
        }
    }
}

proof fn lemma_expand_all_zero(
    lexicon: Map<Seq<char>, u32>,
    state: SearchState,
    level: Seq<(Seq<char>, u32)>,
    edit: u8,
    max_edit: u8,
    clean: Seq<char>,
)
    requires
        exact_at_zero(state.stores.results, clean),
        edit >= 1,
    ensures
        exact_at_zero(expand_all(lexicon, state, level, edit, max_edit).stores.results, clean),
    decreases level.len(),
{
    if level.len() > 0 {
        lemma_expand_all_zero(lexicon, state, level.drop_last(), edit, max_edit, clean);
        lemma_expand_zero(
            lexicon,
            expand_all(lexicon, state, level.drop_last(), edit, max_edit),
            level.last().0,
            edit,
            max_edit,
            level.last().1,
            clean,
        );
    }
}

proof fn lemma_search_from_zero(
    lexicon: Map<Seq<char>, u32>,
    stores: StoresView,
    level: Seq<(Seq<char>, u32)>,
    edit: u8,
    max_edit: u8,
    clean: Seq<char>,
)
    requires
        exact_at_zero(stores.results, clean),
        edit >= 1,
    ensures
        exact_at_zero(search_from(lexicon, stores, level, edit, max_edit).results, clean),
    decreases max_edit - edit,
{
    if edit < max_edit {
        let begun = SearchState { stores, queue: Seq::empty() };
        let next = expand_all(lexicon, begun, level, edit, max_edit);
        lemma_expand_all_zero(lexicon, begun, level, edit, max_edit, clean);
        lemma_search_from_zero(lexicon, next.stores, next.queue, (edit + 1) as u8, max_edit, clean);
    }
}

/// The only candidate that a search finds at distance 0 is the input itself,
/// in its normalized form.
pub proof fn lemma_discovered_zero(lexicon: Map<Seq<char>, u32>, word: Seq<char>, max_edit: u8)
    ensures
        exact_at_zero(discovered(lexicon, word, max_edit), normalized(word)),
{
    if max_edit >= 1 {
        let begun = SearchState { stores: fresh_stores(), queue: Seq::empty() };
        lemma_first_level(lexicon, word, max_edit);
        lemma_expand_zero(lexicon, begun, word, 0, max_edit, 0, normalized(word));
        let first = first_level(lexicon, word, max_edit);
        lemma_search_from_zero(lexicon, first.stores, first.queue, 1, max_edit, normalized(word));
    }
}

/// `other` is reached from `word` by `steps` edits, each of them made on the
/// normalized form of the string before it.
pub open spec fn reached(word: Seq<char>, other: Seq<char>, steps: nat) -> bool
    decreases steps,
{
    if steps == 0 {
        other == word
    } else {
        exists|via: Seq<char>|
            reached(word, via, (steps - 1) as nat) && #[trigger] is_neighbor(
                normalized(via),
                other,
            )
    }
}

/// A candidate stands where the search says: some string is reached from the
/// input by as many edits as the candidate counts, and the candidate carries
/// that string or its normalized form.
pub open spec fn traced(word: Seq<char>, found: CandidateView) -> bool {
    exists|origin: Seq<char>| #[trigger]
        reached(word, origin, found.edit as nat) && (found.word == origin || found.word
            == normalized(origin))
}

/// Every result is traced, and every queued string is reached by `steps`
/// edits.
pub open spec fn all_traced(word: Seq<char>, state: SearchState, steps: nat) -> bool {
    &&& forall|i: int|
        0 <= i < state.stores.results.len() ==> traced(word, #[trigger] state.stores.results[i])
    &&& forall|k: int| 0 <= k < state.queue.len() ==> reached(word, (#[trigger] state.queue[k]).0, steps)
}

proof fn lemma_reached_step(word: Seq<char>, via: Seq<char>, other: Seq<char>, steps: nat)
    requires
        reached(word, via, steps),
        is_neighbor(normalized(via), other),
    ensures
        reached(word, other, steps + 1),
{
    let next: nat = steps + 1;
    assert(reached(word, via, (next - 1) as nat));
    assert(reached(word, other, next));
}

proof fn lemma_offer_traced(
    lexicon: Map<Seq<char>, u32>,
    state: SearchState,
    target: Seq<char>,
    marker: u32,
    edit: u8,
    forward: bool,
    word: Seq<char>,
)
    requires
        all_traced(word, state, edit as nat),
        reached(word, target, edit as nat),
    ensures
        all_traced(word, offer(lexicon, state, target, marker, edit, forward), edit as nat),
{
    let after = offer(lexicon, state, target, marker, edit, forward);
    assert forall|k: int| 0 <= k < after.queue.len() implies reached(
        word,
        (#[trigger] after.queue[k]).0,
        edit as nat,
    ) by {
        if k < state.queue.len() {
            assert(after.queue[k] == state.queue[k]);
        }
    }
    assert forall|i: int| 0 <= i < after.stores.results.len() implies traced(
        word,
        #[trigger] after.stores.results[i],
    ) by {
        if i < state.stores.results.len() {
            assert(after.stores.results[i] == state.stores.results[i]);
        } else {
            assert(after.stores.results[i].word == target);
            assert(after.stores.results[i].edit == edit);
            assert(reached(word, target, after.stores.results[i].edit as nat));
        }
    }
}

proof fn lemma_offer_all_traced(
    lexicon: Map<Seq<char>, u32>,
    state: SearchState,
    edits: Seq<(Seq<char>, u32)>,
    edit: u8,
    forward: bool,
    word: Seq<char>,
)
    requires
        all_traced(word, state, edit as nat),
        forall|k: int| 0 <= k < edits.len() ==> reached(word, (#[trigger] edits[k]).0, edit as nat),
    ensures
        all_traced(word, offer_all(lexicon, state, edits, edit, forward), edit as nat),
    decreases edits.len(),
{
    if edits.len() > 0 {
        let head = edits.drop_last();
        assert forall|k: int| 0 <= k < head.len() implies reached(
            word,
            (#[trigger] head[k]).0,
            edit as nat,
        ) by {
            assert(head[k] == edits[k]);
        }
        lemma_offer_all_traced(lexicon, state, head, edit, forward, word);
        assert(reached(word, edits[edits.len() - 1].0, edit as nat));
        lemma_offer_traced(
            lexicon,
            offer_all(lexicon, state, head, edit, forward),
            edits.last().0,
            edits.last().1,
            edit,
            forward,
            word,
        );
    }
}

proof fn lemma_expand_traced(
    lexicon: Map<Seq<char>, u32>,
    state: SearchState,
    from: Seq<char>,
    edit: u8,
    max_edit: u8,
    marker: u32,
    word: Seq<char>,
)
    requires
        edit < max_edit,
        all_traced(word, state, edit as nat + 1),
        reached(word, from, edit as nat),
    ensures
        all_traced(word, expand(lexicon, state, from, edit, max_edit, marker), edit as nat + 1),
{
    let clean = normalized(from);
    if clean.len() > 0 {
        let stores = if lexicon.contains_key(clean) {
            publish_in(state.stores, CandidateView { word: clean, score: lexicon[clean], edit })
        } else {
            state.stores
        };
        let begun = SearchState { stores, queue: state.queue };
        assert forall|i: int| 0 <= i < stores.results.len() implies traced(
            word,
            #[trigger] stores.results[i],
        ) by {
            if i < state.stores.results.len() {
                assert(stores.results[i] == state.stores.results[i]);
            } else {
                assert(stores.results[i].word == clean);
                assert(reached(word, from, stores.results[i].edit as nat));
            }
        }
        let edits = edits_of(clean, marker);
        assert forall|k: int| 0 <= k < edits.len() implies reached(
            word,
            (#[trigger] edits[k]).0,
            edit as nat + 1,
        ) by {
            lemma_edits_are_neighbors(clean, marker, edits[k].0);
            lemma_reached_step(word, from, edits[k].0, edit as nat);
        }
        lemma_offer_all_traced(lexicon, begun, edits, (edit + 1) as u8, edit + 1 < max_edit, word);
    }
}

proof fn lemma_expand_all_traced(
    lexicon: Map<Seq<char>, u32>,
    state: SearchState,
    level: Seq<(Seq<char>, u32)>,
    edit: u8,
    max_edit: u8,
    word: Seq<char>,
)
    requires
        edit < max_edit,
        all_traced(word, state, edit as nat + 1),
        forall|k: int| 0 <= k < level.len() ==> reached(word, (#[trigger] level[k]).0, edit as nat),
    ensures
        all_traced(word, expand_all(lexicon, state, level, edit, max_edit), edit as nat + 1),
    decreases level.len(),
{
    if level.len() > 0 {
        let head = level.drop_last();
        assert forall|k: int| 0 <= k < head.len() implies reached(
            word,
            (#[trigger] head[k]).0,
            edit as nat,
        ) by {
            assert(head[k] == level[k]);
        }
        lemma_expand_all_traced(lexicon, state, head, edit, max_edit, word);
        assert(reached(word, level[level.len() - 1].0, edit as nat));
        lemma_expand_traced(
            lexicon,
            expand_all(lexicon, state, head, edit, max_edit),
            level.last().0,
            edit,
            max_edit,
            level.last().1,
            word,
        );
    }
}

proof fn lemma_search_from_traced(
    lexicon: Map<Seq<char>, u32>,
    stores: StoresView,
    level: Seq<(Seq<char>, u32)>,
    edit: u8,
    max_edit: u8,
    word: Seq<char>,
)
    requires
        forall|i: int| 0 <= i < stores.results.len() ==> traced(word, #[trigger] stores.results[i]),
        forall|k: int| 0 <= k < level.len() ==> reached(word, (#[trigger] level[k]).0, edit as nat),
    ensures
        forall|i: int|
            0 <= i < search_from(lexicon, stores, level, edit, max_edit).results.len() ==> traced(
                word,
                #[trigger] search_from(lexicon, stores, level, edit, max_edit).results[i],
            ),
    decreases max_edit - edit,
{
    if edit < max_edit {
        let begun = SearchState { stores, queue: Seq::empty() };
        let next = expand_all(lexicon, begun, level, edit, max_edit);
        assert(all_traced(word, begun, edit as nat + 1));
        lemma_expand_all_traced(lexicon, begun, level, edit, max_edit, word);
        assert(all_traced(word, next, ((edit + 1) as u8) as nat));
        lemma_search_from_traced(lexicon, next.stores, next.queue, (edit + 1) as u8, max_edit, word);
        assert(search_from(lexicon, stores, level, edit, max_edit) == search_from(
            lexicon,
            next.stores,
            next.queue,
            (edit + 1) as u8,
            max_edit,
        ));
    } else {
        assert(search_from(lexicon, stores, level, edit, max_edit) == stores);
    }
}

/// Every candidate of a search is traced back to the input: it stands as
/// many edits away from it as it counts.
pub proof fn lemma_discovered_traced(
    lexicon: Map<Seq<char>, u32>,
    word: Seq<char>,
    max_edit: u8,
    i: int,
)
    requires
        0 <= i < discovered(lexicon, word, max_edit).len(),
    ensures
        traced(word, discovered(lexicon, word, max_edit)[i]),
{
    let level = seq![(word, 0u32)];
    assert(reached(word, level[0].0, 0));
    lemma_search_from_traced(lexicon, fresh_stores(), level, 0, max_edit, word);
}

/// The strings of a queue, without their markers.
pub open spec fn words_of(queue: Seq<(Seq<char>, u32)>) -> Seq<Seq<char>> {
    queue.map_values(|e: (Seq<char>, u32)| e.0)
}

/// The strings that the rest of a search forwards for expansion, level by
/// level.
pub open spec fn forwarded(
    lexicon: Map<Seq<char>, u32>,
    stores: StoresView,
    level: Seq<(Seq<char>, u32)>,
    edit: u8,
    max_edit: u8,
) -> Seq<Seq<char>>
    decreases max_edit - edit,
{
    if edit >= max_edit {
        Seq::empty()
    } else {
        let next = expand_all(
            lexicon,
            SearchState { stores, queue: Seq::empty() },
            level,
            edit,
            max_edit,
        );
        words_of(next.queue) + forwarded(
            lexicon,
            next.stores,
            next.queue,
            (edit + 1) as u8,
            max_edit,
        )
    }
}

/// What holds of the queue of a level in the making: the stores are active
/// and have kept what was visited before the level; every queued string is
/// visited by now and was not before; and no string is queued twice.
pub open spec fn fresh_queue(before: Set<Seq<char>>, state: SearchState) -> bool {
    &&& state.stores.ready
    &&& before.subset_of(state.stores.visited)
    &&& forall|k: int|
        0 <= k < state.queue.len() ==> state.stores.visited.contains((#[trigger] state.queue[k]).0)
            && !before.contains(state.queue[k].0)
    &&& forall|j: int, k: int|
        0 <= j < k < state.queue.len() ==> (#[trigger] state.queue[j]).0 != (
        #[trigger] state.queue[k]).0
}

proof fn lemma_offer_fresh(
    lexicon: Map<Seq<char>, u32>,
    state: SearchState,
    target: Seq<char>,
    marker: u32,
    edit: u8,
    forward: bool,
    before: Set<Seq<char>>,
)
    requires
        fresh_queue(before, state),
    ensures
        fresh_queue(before, offer(lexicon, state, target, marker, edit, forward)),
{
    let after = offer(lexicon, state, target, marker, edit, forward);
    assert forall|k: int| 0 <= k < after.queue.len() implies after.stores.visited.contains(
        (#[trigger] after.queue[k]).0,
    ) && !before.contains(after.queue[k].0) by {
        if k < state.queue.len() {
            assert(after.queue[k] == state.queue[k]);
        }
    }
    assert forall|j: int, k: int| 0 <= j < k < after.queue.len() implies (
    #[trigger] after.queue[j]).0 != (#[trigger] after.queue[k]).0 by {
        assert(after.queue[j] == state.queue[j]);
        if k < state.queue.len() {
            assert(after.queue[k] == state.queue[k]);
        }
    }
}

proof fn lemma_offer_all_fresh(
    lexicon: Map<Seq<char>, u32>,
    state: SearchState,
    edits: Seq<(Seq<char>, u32)>,
    edit: u8,
    forward: bool,
    before: Set<Seq<char>>,
)
    requires
        fresh_queue(before, state),
    ensures
        fresh_queue(before, offer_all(lexicon, state, edits, edit, forward)),
    decreases edits.len(),
{
    if edits.len() > 0 {
        lemma_offer_all_fresh(lexicon, state, edits.drop_last(), edit, forward, before);
        lemma_offer_fresh(
            lexicon,
            offer_all(lexicon, state, edits.drop_last(), edit, forward),
            edits.last().0,
            edits.last().1,
            edit,
            forward,
            before,
        );
    }
}

proof fn lemma_expand_all_fresh(
    lexicon: Map<Seq<char>, u32>,
    state: SearchState,
    level: Seq<(Seq<char>, u32)>,
    edit: u8,
    max_edit: u8,
    before: Set<Seq<char>>,
)
    requires
        fresh_queue(before, state),
    ensures
        fresh_queue(before, expand_all(lexicon, state, level, edit, max_edit)),
    decreases level.len(),
{
    if level.len() > 0 {
        lemma_expand_all_fresh(lexicon, state, level.drop_last(), edit, max_edit, before);
        let held = expand_all(lexicon, state, level.drop_last(), edit, max_edit);
        let clean = normalized(level.last().0);
        if edit < max_edit && clean.len() > 0 {
            let stores = if lexicon.contains_key(clean) {
                publish_in(held.stores, CandidateView { word: clean, score: lexicon[clean], edit })
            } else {
                held.stores
            };
            lemma_offer_all_fresh(
                lexicon,
                SearchState { stores, queue: held.queue },
                edits_of(clean, level.last().1),
                (edit + 1) as u8,
                edit + 1 < max_edit,
                before,
            );
        }
    }
}

proof fn lemma_forwarded_fresh(
    lexicon: Map<Seq<char>, u32>,
    stores: StoresView,
    level: Seq<(Seq<char>, u32)>,
    edit: u8,
    max_edit: u8,
)
    requires
        stores.ready,
    ensures
        forwarded(lexicon, stores, level, edit, max_edit).no_duplicates(),
        forall|i: int|
            0 <= i < forwarded(lexicon, stores, level, edit, max_edit).len()
                ==> !stores.visited.contains(
                #[trigger] forwarded(lexicon, stores, level, edit, max_edit)[i],
            ),
    decreases max_edit - edit,
{
    if edit < max_edit {
        let begun = SearchState { stores, queue: Seq::empty() };
        let next = expand_all(lexicon, begun, level, edit, max_edit);
        lemma_expand_all_fresh(lexicon, begun, level, edit, max_edit, stores.visited);
        lemma_forwarded_fresh(lexicon, next.stores, next.queue, (edit + 1) as u8, max_edit);
        let here = words_of(next.queue);
        let rest = forwarded(lexicon, next.stores, next.queue, (edit + 1) as u8, max_edit);
        let all = forwarded(lexicon, stores, level, edit, max_edit);
        assert(all == here + rest);
        assert forall|i: int| 0 <= i < all.len() implies !stores.visited.contains(
            #[trigger] all[i],
        ) by {
            if i < here.len() {
                assert(all[i] == next.queue[i].0);
            } else {
                assert(all[i] == rest[i - here.len()]);
            }
        }
        assert forall|i: int, j: int| 0 <= i < all.len() && 0 <= j < all.len() && i != j implies all[i]
            != all[j] by {
            if i < here.len() && j < here.len() {
                assert(all[i] == next.queue[i].0 && all[j] == next.queue[j].0);
            } else if i < here.len() {
                assert(all[i] == next.queue[i].0 && all[j] == rest[j - here.len()]);
            } else if j < here.len() {
                assert(all[j] == next.queue[j].0 && all[i] == rest[i - here.len()]);
            } else {
                assert(all[i] == rest[i - here.len()] && all[j] == rest[j - here.len()]);
            }
        }
    }
}

/// In the course of a search no string is forwarded for expansion twice.
pub proof fn lemma_forwarded_once(lexicon: Map<Seq<char>, u32>, word: Seq<char>, max_edit: u8)
    ensures
        forwarded(lexicon, fresh_stores(), seq![(word, 0u32)], 0, max_edit).no_duplicates(),
{
    lemma_forwarded_fresh(lexicon, fresh_stores(), seq![(word, 0u32)], 0, max_edit);
}

/// Ranking sound results keeps them sound.
pub proof fn lemma_ranked_sound(
    lexicon: Map<Seq<char>, u32>,
    results: Seq<CandidateView>,
    max_edit: u8,
)
    requires
        sound_results(lexicon, results, max_edit),
    ensures
        sound_results(lexicon, ranked(results), max_edit),
{
    lemma_ranked(results);
    let sorted = ranked(results);
    assert forall|i: int| 0 <= i < sorted.len() implies {
        &&& lexicon.contains_key((#[trigger] sorted[i]).word)
        &&& sorted[i].score == lexicon[sorted[i].word]
        &&& sorted[i].edit <= max_edit
    } by {
        sorted.to_multiset_ensures();
        results.to_multiset_ensures();
        assert(sorted.to_multiset().count(sorted[i]) > 0);
        assert(results.contains(sorted[i]));
        let j = choose|j: int| 0 <= j < results.len() && results[j] == sorted[i];
        assert(results[j] == sorted[i]);
    }
}

} // verus!
