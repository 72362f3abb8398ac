//! The two stores of a query: the strings that were already forwarded for
//! expansion, and the candidates that were already emitted.

use crate::candidate::distinct_words;
use crate::candidate::has_word;
use crate::candidate::views_of;
use crate::candidate::word_set;
use crate::candidate::Candidate;
use crate::candidate::CandidateView;
use vstd::prelude::*;

verus! {

/// Starting size of the set of visited strings.
pub const VISITED_CAPACITY: usize = 256;

/// Starting size of the set of emitted words.
pub const RESULTS_CAPACITY: usize = 64;

/// A set of words, kept in a `hashbrown::HashSet<String>`. The set is opaque
/// to the verifier: what it holds is `words_in`, and what its operations do
/// is taken on trust from the four functions below.
#[verifier::external_body]
pub struct WordSet {
    inner: hashbrown::HashSet<String>,
}

/// The words that a set holds, each as its sequence of characters.
pub uninterp spec fn words_in(set: WordSet) -> Set<Seq<char>>;

/// Trusted: `hashbrown::HashSet::with_capacity` makes a set that holds
/// nothing. The capacity is a starting size; it is kept small so that the
/// allocation cannot overflow.
#[verifier::external_body]
fn word_set_with_capacity(capacity: usize) -> (set: WordSet)
    requires
        capacity <= 1024,
    ensures
        words_in(set) == Set::<Seq<char>>::empty(),
{
    WordSet { inner: hashbrown::HashSet::with_capacity(capacity) }
}

/// Trusted: `hashbrown::HashSet::contains` says whether the set holds a
/// string equal to `word`. Two strings are equal when their characters are.
#[verifier::external_body]
fn word_set_contains(set: &WordSet, word: &str) -> (held: bool)
    ensures
        held == words_in(*set).contains(word@),
{
    set.inner.contains(word)
}

/// Trusted: after `hashbrown::HashSet::insert` the set holds `word` and
/// whatever it held before; the result is `true` when the word was not in it.
#[verifier::external_body]
fn word_set_insert(set: &mut WordSet, word: String) -> (fresh: bool)
    ensures
        words_in(*final(set)) == words_in(*old(set)).insert(word@),
        fresh == !words_in(*old(set)).contains(word@),
{
    set.inner.insert(word)
}

/// Trusted: after `hashbrown::HashSet::clear` the set holds nothing.
#[verifier::external_body]
fn word_set_clear(set: &mut WordSet)
    ensures
        words_in(*final(set)) == Set::<Seq<char>>::empty(),
{
    set.inner.clear()
}

/// Mathematical value of the [`Stores`].
pub struct StoresView {
    pub ready: bool,
    pub visited: Set<Seq<char>>,
    pub results: Seq<CandidateView>,
}

/// The stores after `word` was looked for: an active store remembers it.
pub open spec fn visit(stores: StoresView, word: Seq<char>) -> StoresView {
    if stores.ready {
        StoresView { visited: stores.visited.insert(word), ..stores }
    } else {
        stores
    }
}

/// Whether `word` counts as visited: it was looked for before, or the stores
/// are not active.
pub open spec fn was_seen(stores: StoresView, word: Seq<char>) -> bool {
    !stores.ready || stores.visited.contains(word)
}

/// Whether a candidate is dropped: its word was emitted before, or the stores
/// are not active.
pub open spec fn is_dropped(stores: StoresView, candidate: CandidateView) -> bool {
    !stores.ready || has_word(stores.results, candidate.word)
}

/// The stores after `candidate` was offered: it joins the results unless it
/// is dropped.
pub open spec fn publish_in(stores: StoresView, candidate: CandidateView) -> StoresView {
    if is_dropped(stores, candidate) {
        stores
    } else {
        StoresView { results: stores.results.push(candidate), ..stores }
    }
}

/// The stores of a query that has not begun: active, and empty.
pub open spec fn fresh_stores() -> StoresView {
    StoresView { ready: true, visited: Set::empty(), results: Seq::empty() }
}

/// The visited strings and the emitted candidates of one query.
pub struct Stores {
    ready: bool,
    visited: WordSet,
    emitted: WordSet,
    results: Vec<Candidate>,
}

impl View for Stores {
    type V = StoresView;

    closed spec fn view(&self) -> StoresView {
        StoresView {
            ready: self.ready,
            visited: words_in(self.visited),
            results: views_of(self.results@),
        }
    }
}

impl Stores {
    /// Validity: the emitted words are those of the results, and no word
    /// occurs twice among the results.
    pub closed spec fn wf(&self) -> bool {
        &&& words_in(self.emitted) == word_set(views_of(self.results@))
        &&& distinct_words(views_of(self.results@))
    }

    /// In valid stores no two results carry the same word.
    pub proof fn lemma_distinct(&self)
        requires
            self.wf(),
        ensures
            distinct_words(self@.results),
    {
    }

    /// Inactive, empty stores.
    pub fn new() -> (stores: Stores)
        ensures
            stores.wf(),
            stores@ == (StoresView { ready: false, ..fresh_stores() }),
    {
        let stores = Stores {
            ready: false,
            visited: word_set_with_capacity(VISITED_CAPACITY),
            emitted: word_set_with_capacity(RESULTS_CAPACITY),
            results: Vec::with_capacity(RESULTS_CAPACITY),
        };
        assert(views_of(stores.results@) =~= Seq::<CandidateView>::empty());
        assert(word_set(views_of(stores.results@)) =~= Set::<Seq<char>>::empty());
        stores
    }

    /// Activates the stores for a query.
    pub fn get_ready(&mut self)
        requires
            old(self).wf(),
        ensures
            final(self).wf(),
            final(self)@ == (StoresView { ready: true, ..old(self)@ }),
    {
        self.ready = true;
    }

    /// Ends a query: the stores are inactive and empty afterwards.
    pub fn reset(&mut self)
        ensures
            final(self).wf(),
            final(self)@ == (StoresView { ready: false, ..fresh_stores() }),
    {
        self.ready = false;
        word_set_clear(&mut self.visited);
        word_set_clear(&mut self.emitted);
        self.results.clear();
        assert(views_of(self.results@) =~= Seq::<CandidateView>::empty());
        assert(word_set(views_of(self.results@)) =~= Set::<Seq<char>>::empty());
    }

    /// Looks for `word` among the visited strings and remembers it. Inactive
    /// stores answer `true` and remember nothing.
    pub fn contains(&mut self, word: &str) -> (seen: bool)
        requires
            old(self).wf(),
        ensures
            final(self).wf(),
            seen == was_seen(old(self)@, word@),
            final(self)@ == visit(old(self)@, word@),
    {
        if !self.ready {
            return true;
        }
        let mut seen = true;
        if !word_set_contains(&self.visited, word) {
            seen = !word_set_insert(&mut self.visited, word.to_owned());
        }
        assert(words_in(self.visited) =~= words_in(old(self).visited).insert(word@));
        seen
    }

    /// Offers a candidate to the results. The answer is `false` when it
    /// joined them, `true` when it was dropped: a candidate with its word was
    /// emitted before, or the stores are inactive.
    pub fn publish(&mut self, candidate: Candidate) -> (dropped: bool)
        requires
            old(self).wf(),
        ensures
            final(self).wf(),
            dropped == is_dropped(old(self)@, candidate@),
            final(self)@ == publish_in(old(self)@, candidate@),
    {
        if !self.ready {
            return true;
        }
        let ghost held = views_of(self.results@);
        if word_set_contains(&self.emitted, candidate.word.as_str()) {
            return true;
        }
        word_set_insert(&mut self.emitted, candidate.word.clone());
        self.results.push(candidate);
        proof {
            let grown = views_of(self.results@);
            assert(grown =~= held.push(candidate@));
            assert forall|w: Seq<char>| has_word(grown, w) <==> (has_word(held, w) || w
                == candidate@.word) by {
                if has_word(grown, w) {
                    let i = choose|i: int| 0 <= i < grown.len() && (#[trigger] grown[i]).word == w;
                    if i < held.len() {
                        assert(held[i].word == w);
                    }
                }
                if has_word(held, w) {
                    let i = choose|i: int| 0 <= i < held.len() && (#[trigger] held[i]).word == w;
                    assert(grown[i].word == w);
                }
                if w == candidate@.word {
                    assert(grown[held.len() as int].word == w);
                }
            }
            assert(word_set(grown) =~= word_set(held).insert(candidate@.word));
            assert forall|i: int, j: int| 0 <= i < j < grown.len() implies (#[trigger] grown[i]).word
                != (#[trigger] grown[j]).word by {
                if j == held.len() {
                    assert(held[i].word != candidate@.word);
                } else {
                    assert(held[i].word != held[j].word);
                }
            }
        }
        false
    }

    /// Hands the results out, in the order in which they were emitted, and
    /// leaves none behind.
    pub fn collect(&mut self) -> (found: Vec<Candidate>)
        requires
            old(self).wf(),
        ensures
            final(self).wf(),
            views_of(found@) == old(self)@.results,
            final(self)@ == (StoresView { results: Seq::empty(), ..old(self)@ }),
    {
        let mut found: Vec<Candidate> = Vec::new();
        std::mem::swap(&mut self.results, &mut found);
        word_set_clear(&mut self.emitted);
        assert(views_of(self.results@) =~= Seq::<CandidateView>::empty());
        assert(word_set(views_of(self.results@)) =~= Set::<Seq<char>>::empty());
        found
    }
}

} // verus!
