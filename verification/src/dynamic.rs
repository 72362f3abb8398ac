//! The search: from the input outwards, one edit at a time, every string is
//! looked up in the dictionary and forwarded to the next level unless it was
//! there before.

use crate::candidate::views_of;
use crate::candidate::Candidate;
use crate::candidate::CandidateView;
use crate::common::del_tran;
use crate::common::del_tran_spec;
use crate::common::edit_views;
use crate::common::edits_of;
use crate::common::ins_repl;
use crate::common::ins_repl_spec;
use crate::lexicon::lexicon_of;
use crate::lexicon::line_views;
use crate::stores::fresh_stores;
use crate::stores::publish_in;
use crate::stores::visit;
use crate::stores::was_seen;
use crate::stores::Stores;
use crate::stores::StoresView;
use crate::support::normalize;
use crate::support::normalized;
use crate::trie::Node;
use vstd::prelude::*;

verus! {

/// What a search has gathered: the stores, and the strings that wait for the
/// next level, each with its marker.
pub struct SearchState {
    pub stores: StoresView,
    pub queue: Seq<(Seq<char>, u32)>,
}

/// The state after one generated string was offered. Where the search goes
/// on behind this level, a string that was not visited before joins the
/// queue. A string that the lexicon holds is emitted with the distance
/// `edit`.
pub open spec fn offer(
    lexicon: Map<Seq<char>, u32>,
    state: SearchState,
    target: Seq<char>,
    marker: u32,
    edit: u8,
    forward: bool,
) -> SearchState {
    let queue = if forward && !was_seen(state.stores, target) {
        state.queue.push((target, marker))
    } else {
        state.queue
    };
    let visited = if forward {
        visit(state.stores, target)
    } else {
        state.stores
    };
    let stores = if lexicon.contains_key(target) {
        publish_in(visited, CandidateView { word: target, score: lexicon[target], edit })
    } else {
        visited
    };
    SearchState { stores, queue }
}

/// The state after a run of generated strings was offered, in order.
pub open spec fn offer_all(
    lexicon: Map<Seq<char>, u32>,
    state: SearchState,
    edits: Seq<(Seq<char>, u32)>,
    edit: u8,
    forward: bool,
) -> SearchState
    decreases edits.len(),
{
    if edits.len() == 0 {
        state
    } else {
        offer(
            lexicon,
            offer_all(lexicon, state, edits.drop_last(), edit, forward),
            edits.last().0,
            edits.last().1,
            edit,
            forward,
        )
    }
}

/// The state after `word`, which stands at the distance `edit`, was
/// expanded. Nothing happens at the largest distance or for a word that is
/// empty once normalized. Else the word itself is emitted if the lexicon
/// holds it, and each of its edits is offered at the next distance.
pub open spec fn expand(
    lexicon: Map<Seq<char>, u32>,
    state: SearchState,
    word: Seq<char>,
    edit: u8,
    max_edit: u8,
    marker: u32,
) -> SearchState {
    let clean = normalized(word);
    if edit >= max_edit || clean.len() == 0 {
        state
    } else {
        let stores = if lexicon.contains_key(clean) {
            publish_in(state.stores, CandidateView { word: clean, score: lexicon[clean], edit })
        } else {
            state.stores
        };
        offer_all(
            lexicon,
            SearchState { stores, queue: state.queue },
            edits_of(clean, marker),
            (edit + 1) as u8,
            edit + 1 < max_edit,
        )
    }
}

/// The state after every string of `level` was expanded, in order.
pub open spec fn expand_all(
    lexicon: Map<Seq<char>, u32>,
    state: SearchState,
    level: Seq<(Seq<char>, u32)>,
    edit: u8,
    max_edit: u8,
) -> SearchState
    decreases level.len(),
{
    if level.len() == 0 {
        state
    } else {
        expand(
            lexicon,
            expand_all(lexicon, state, level.drop_last(), edit, max_edit),
            level.last().0,
            edit,
            max_edit,
            level.last().1,
        )
    }
}

/// The stores at the end of a search that stands at the distance `edit`
/// with the strings of `level` to expand.
pub open spec fn search_from(
    lexicon: Map<Seq<char>, u32>,
    stores: StoresView,
    level: Seq<(Seq<char>, u32)>,
    edit: u8,
    max_edit: u8,
) -> StoresView
    decreases max_edit - edit,
{
    if edit >= max_edit {
        stores
    } else {
        let next = expand_all(
            lexicon,
            SearchState { stores, queue: Seq::empty() },
            level,
            edit,
            max_edit,
        );
        search_from(lexicon, next.stores, next.queue, (edit + 1) as u8, max_edit)
    }
}

/// The candidates that a search for `word` emits, in the order in which it
/// comes upon them.
pub open spec fn discovered(lexicon: Map<Seq<char>, u32>, word: Seq<char>, max_edit: u8) -> Seq<
    CandidateView,
> {
    search_from(lexicon, fresh_stores(), seq![(word, 0u32)], 0, max_edit).results
}

/// The state that stores and a queue stand for.
pub open spec fn state_of(stores: StoresView, queue: Seq<(String, u32)>) -> SearchState {
    SearchState { stores, queue: edit_views(queue) }
}

/// Offering two runs of strings one after the other is offering them joined.
pub proof fn lemma_offer_all_concat(
    lexicon: Map<Seq<char>, u32>,
    state: SearchState,
    first: Seq<(Seq<char>, u32)>,
    second: Seq<(Seq<char>, u32)>,
    edit: u8,
    forward: bool,
)
    ensures
        offer_all(lexicon, state, first + second, edit, forward) == offer_all(
            lexicon,
            offer_all(lexicon, state, first, edit, forward),
            second,
            edit,
            forward,
        ),
    decreases second.len(),
{
    if second.len() == 0 {
        assert(first + second =~= first);
    } else {
        lemma_offer_all_concat(lexicon, state, first, second.drop_last(), edit, forward);
        assert((first + second).drop_last() =~= first + second.drop_last());
    }
}

/// Offers one generated string: forwards it to the next level unless it was
/// visited, and emits it if the dictionary holds it.
pub fn send_one(
    target: String,
    edit: u8,
    marker: u32,
    forward: bool,
    dict: &Node,
    stores: &mut Stores,
    queue: &mut Vec<(String, u32)>,
)
    requires
        dict.wf(),
        old(stores).wf(),
    ensures
        final(stores).wf(),
        state_of(final(stores)@, final(queue)@) == offer(
            dict@,
            state_of(old(stores)@, old(queue)@),
            target@,
            marker,
            edit,
            forward,
        ),
{
    if forward {
        if !stores.contains(target.as_str()) {
            queue.push((target.clone(), marker));
            assert(edit_views(queue@) =~= edit_views(old(queue)@).push((target@, marker)));
        }
    }
    if let Some(score) = dict.check(target.as_str()) {
        stores.publish(Candidate::new(target, score, edit));
    }
}

/// Offers every string of `edits`, in order.
pub fn send_all(
    edits: &Vec<(String, u32)>,
    edit: u8,
    forward: bool,
    dict: &Node,
    stores: &mut Stores,
    queue: &mut Vec<(String, u32)>,
)
    requires
        dict.wf(),
        old(stores).wf(),
    ensures
        final(stores).wf(),
        state_of(final(stores)@, final(queue)@) == offer_all(
            dict@,
            state_of(old(stores)@, old(queue)@),
            edit_views(edits@),
            edit,
            forward,
        ),
{
    let ghost start = state_of(stores@, queue@);
    let ghost all = edit_views(edits@);
    let mut i: usize = 0;
    assert(all.take(0) =~= Seq::<(Seq<char>, u32)>::empty());
    while i < edits.len()
        invariant
            i <= edits.len(),
            dict.wf(),
            stores.wf(),
            all == edit_views(edits@),
            state_of(stores@, queue@) == offer_all(dict@, start, all.take(i as int), edit, forward),
        decreases edits.len() - i,
    {
        assert(all.take(i + 1).drop_last() =~= all.take(i as int));
        assert(all.take(i + 1).last() == (edits@[i as int].0@, edits@[i as int].1));
        send_one(edits[i].0.clone(), edit, edits[i].1, forward, dict, stores, queue);
        i += 1;
    }
    assert(all.take(edits@.len() as int) =~= all);
}

/// Expands `word`, which stands at the distance `edit`: emits it if the
/// dictionary holds it, and offers each of its edits at the next distance.
pub fn candidate(
    word: String,
    edit: u8,
    max_edit: u8,
    dict: &Node,
    stores: &mut Stores,
    queue: &mut Vec<(String, u32)>,
    marker: u32,
)
    requires
        dict.wf(),
        old(stores).wf(),
    ensures
        final(stores).wf(),
        state_of(final(stores)@, final(queue)@) == expand(
            dict@,
            state_of(old(stores)@, old(queue)@),
            word@,
            edit,
            max_edit,
            marker,
        ),
{
    if edit >= max_edit {
        return ;
    }
    let word = normalize(word.as_str());
    if word.as_str().is_empty() {
        return ;
    }
    if let Some(score) = dict.check(word.as_str()) {
        stores.publish(Candidate::new(word.clone(), score, edit));
    }
    let ghost begun = state_of(stores@, queue@);
    let current_edit = edit + 1;
    let forward = current_edit < max_edit;
    let inserted = ins_repl(word.as_str(), marker);
    send_all(&inserted, current_edit, forward, dict, stores, queue);
    let deleted = del_tran(word.as_str(), marker);
    send_all(&deleted, current_edit, forward, dict, stores, queue);
    proof {
        lemma_offer_all_concat(
            dict@,
            begun,
            ins_repl_spec(word@, marker),
            del_tran_spec(word@, marker),
            current_edit,
            forward,
        );
    }
}

/// Expands every string of `level`, in order; all of them stand at the
/// distance `edit`.
pub fn find_next_edit_candidates(
    edit: u8,
    max_edit: u8,
    level: &Vec<(String, u32)>,
    dict: &Node,
    stores: &mut Stores,
    queue: &mut Vec<(String, u32)>,
)
    requires
        dict.wf(),
        old(stores).wf(),
    ensures
        final(stores).wf(),
        state_of(final(stores)@, final(queue)@) == expand_all(
            dict@,
            state_of(old(stores)@, old(queue)@),
            edit_views(level@),
            edit,
            max_edit,
        ),
{
    let ghost start = state_of(stores@, queue@);
    let ghost all = edit_views(level@);
    let mut i: usize = 0;
    assert(all.take(0) =~= Seq::<(Seq<char>, u32)>::empty());
    while i < level.len()
        invariant
            i <= level.len(),
            dict.wf(),
            stores.wf(),
            all == edit_views(level@),
            state_of(stores@, queue@) == expand_all(dict@, start, all.take(i as int), edit, max_edit),
        decreases level.len() - i,
    {
        assert(all.take(i + 1).drop_last() =~= all.take(i as int));
        assert(all.take(i + 1).last() == (level@[i as int].0@, level@[i as int].1));
        candidate(level[i].0.clone(), edit, max_edit, dict, stores, queue, level[i].1);
        i += 1;
    }
    assert(all.take(level@.len() as int) =~= all);
}

/// Searches the dictionary for the words within `max_edit` edits of `word`,
/// level by level, and returns them in the order in which they were found.
pub fn search(word: String, max_edit: u8, dict: &Node) -> (found: Vec<Candidate>)
    requires
        dict.wf(),
    ensures
        views_of(found@) == discovered(dict@, word@, max_edit),
{
    let ghost input = word@;
    let mut stores = Stores::new();
    stores.get_ready();
    let mut level: Vec<(String, u32)> = Vec::new();
    level.push((word, 0));
    assert(edit_views(level@) =~= seq![(input, 0u32)]);
    let mut edit: u8 = 0;
    while edit < max_edit
        invariant
            edit <= max_edit,
            dict.wf(),
            stores.wf(),
            search_from(dict@, stores@, edit_views(level@), edit, max_edit) == search_from(
                dict@,
                fresh_stores(),
                seq![(input, 0u32)],
                0,
                max_edit,
            ),
        decreases max_edit - edit,
    {
        let mut queue: Vec<(String, u32)> = Vec::new();
        assert(edit_views(queue@) =~= Seq::<(Seq<char>, u32)>::empty());
        find_next_edit_candidates(edit, max_edit, &level, dict, &mut stores, &mut queue);
        level = queue;
        edit += 1;
    }
    let found = stores.collect();
    stores.reset();
    found
}

/// Builds the dictionary that the lines of a lexicon denote, and counts its
/// words.
pub fn populate_words_set(lines: &Vec<String>) -> (loaded: (Node, usize))
    ensures
        loaded.0.wf(),
        loaded.0@ == lexicon_of(line_views(lines@)),
        loaded.1 == loaded.0@.len(),
{
    let mut dict = Node::new();
    let words = dict.build(lines);
    (dict, words)
}

} // verus!
