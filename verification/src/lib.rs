//! Spelling suggestions within a small edit distance of a frequency-weighted
//! lexicon: the words that a few insertions, replacements, deletions and
//! transpositions away from an input, best first.
//!
//! A service is made with [`AutoCorrect::new`], given the lines of a lexicon
//! with [`AutoCorrect::init_dict`], and asked with [`AutoCorrect::candidates`].
//! The library reads no file: the caller reads the lexicon at
//! [`AutoCorrect::dict_path`] and hands its lines over.

pub mod candidate;
pub mod common;
pub mod config;
pub mod dynamic;
pub mod guarantees;
pub mod lexicon;
pub mod outbox;
pub mod prelude;
pub mod ranking;
pub mod stores;
pub mod support;
pub mod trie;

use crate::candidate::distinct_words;
use crate::candidate::has_word;
use crate::candidate::ranks_below;
use crate::candidate::views_of;
use crate::candidate::Candidate;
use crate::candidate::CandidateView;
use crate::common::is_neighbor;
use crate::common::is_skipped_replacement;
use crate::config::clamped_edit;
use crate::config::dict_path_of;
use crate::config::AutoCorrectConfig;
use crate::config::Config;
use crate::config::ConfigView;
use crate::config::RunMode;
use crate::config::SupportedLocale;
use crate::dynamic::discovered;
use crate::dynamic::populate_words_set;
use crate::dynamic::search;
use crate::guarantees::lemma_blank_input;
use crate::guarantees::lemma_discovered_sound;
use crate::guarantees::lemma_discovered_traced;
use crate::guarantees::lemma_discovered_zero;
use crate::guarantees::lemma_empty_lexicon;
use crate::guarantees::lemma_exact_word_found;
use crate::guarantees::lemma_neighbors_found;
use crate::guarantees::lemma_ranked_sound;
use crate::guarantees::lemma_single_edit;
use crate::guarantees::traced;
use crate::lexicon::lexicon_of;
use crate::lexicon::line_views;
use crate::outbox::after_stream;
use crate::outbox::Outbox;
use crate::ranking::best_first;
use crate::ranking::lemma_ranked;
use crate::ranking::ranked;
use crate::ranking::sort_ranked;
use crate::support::lemma_normalized_blank;
use crate::support::normalized;
use crate::support::white_space;
use crate::trie::Node;
use std::sync::mpsc::Sender;
use vstd::prelude::*;

verus! {

/// Mathematical value of an [`AutoCorrect`]: its configuration and the
/// lexicon that its dictionary holds.
pub struct AutoCorrectView {
    pub config: ConfigView,
    pub lexicon: Map<Seq<char>, u32>,
}

/// The suggestion service: a configuration, a dictionary and the number of
/// words in it.
pub struct AutoCorrect {
    config: Config,
    dict: Node,
    words: usize,
}

impl View for AutoCorrect {
    type V = AutoCorrectView;

    closed spec fn view(&self) -> AutoCorrectView {
        AutoCorrectView { config: self.config@, lexicon: self.dict@ }
    }
}

/// The configuration of a service that was given none.
pub open spec fn default_config() -> ConfigView {
    ConfigView {
        max_edit: 1,
        pool_size: 12,
        locale: SupportedLocale::EnUs,
        run_mode: RunMode::SpaceSensitive,
        override_dict: Seq::empty(),
    }
}

impl AutoCorrect {
    #[verifier::type_invariant]
    spec fn valid(self) -> bool {
        self.dict.wf() && self.words == self.dict@.len()
    }

    /// The candidates for `word` in the order in which the search finds them.
    pub open spec fn stream(&self, word: Seq<char>) -> Seq<CandidateView> {
        discovered(self@.lexicon, word, self@.config.max_edit)
    }

    /// The candidates for `word`, best first.
    pub open spec fn suggestions(&self, word: Seq<char>) -> Seq<CandidateView> {
        ranked(self.stream(word))
    }

    /// A service with the default configuration and an empty dictionary.
    #[inline]
    pub fn new() -> (service: AutoCorrect)
        ensures
            service@ == (AutoCorrectView { config: default_config(), lexicon: Map::empty() }),
    {
        AutoCorrect::new_with_config(Config::new())
    }

    /// A service with the given configuration and an empty dictionary. The
    /// lexicon at the path of the configuration is loaded with `init_dict`.
    pub fn new_with_config(config: Config) -> (service: AutoCorrect)
        ensures
            service@ == (AutoCorrectView { config: config@, lexicon: Map::empty() }),
    {
        AutoCorrect { config, dict: Node::new(), words: 0 }
    }

    /// Builds the dictionary anew from the lines of a lexicon.
    pub fn init_dict(&mut self, lines: &Vec<String>)
        ensures
            final(self)@ == (AutoCorrectView {
                config: old(self)@.config,
                lexicon: lexicon_of(line_views(lines@)),
            }),
    {
        let (dict, words) = populate_words_set(lines);
        *self = AutoCorrect { config: self.config.clone(), dict, words };
    }

    /// The number of words in the dictionary.
    pub fn dict_size(&self) -> (words: usize)
        ensures
            words == self@.lexicon.len(),
            self@.lexicon.dom().finite(),
    {
        proof {
            use_type_invariant(self);
        }
        self.words
    }

    /// The path of the lexicon that the configuration names.
    pub fn dict_path(&self) -> (path: String)
        ensures
            path@ == dict_path_of(self@.config),
    {
        self.config.get_dict_path()
    }

    /// The dictionary words within the configured distance of `word`, each
    /// once, best first.
    pub fn candidates(&self, word: String) -> (found: Vec<Candidate>)
        ensures
            views_of(found@) == self.suggestions(word@),
            best_first(views_of(found@)),
            distinct_words(views_of(found@)),
            views_of(found@).to_multiset() == self.stream(word@).to_multiset(),
            forall|i: int|
                0 <= i < found@.len() ==> {
                    &&& (#[trigger] found@[i]).edit <= self@.config.max_edit
                    &&& self@.lexicon.contains_key(found@[i].word@)
                    &&& found@[i].score == self@.lexicon[found@[i].word@]
                },
            forall|i: int| 0 <= i < found@.len() ==> traced(word@, (#[trigger] found@[i])@),
            normalized(word@).len() == 0 ==> found@.len() == 0,
            (forall|i: int| 0 <= i < word@.len() ==> white_space(#[trigger] word@[i]))
                ==> found@.len() == 0,
            self@.lexicon == Map::<Seq<char>, u32>::empty() ==> found@.len() == 0,
            normalized(word@).len() > 0 && self@.lexicon.contains_key(normalized(word@))
                ==> found@.len() > 0 && found@[0]@ == (CandidateView {
                word: normalized(word@),
                score: self@.lexicon[normalized(word@)],
                edit: 0,
            }),
            forall|i: int|
                0 <= i < found@.len() && (#[trigger] found@[i]).edit == 0 ==> i == 0
                    && found@[i].word@ == normalized(word@),
            forall|other: Seq<char>|
                normalized(word@).len() > 0 && self@.lexicon.contains_key(other) && is_neighbor(
                    normalized(word@),
                    other,
                ) && !is_skipped_replacement(normalized(word@), other) ==> #[trigger] has_word(
                    views_of(found@),
                    other,
                ),
            self@.config.max_edit == 1 ==> forall|i: int|
                0 <= i < found@.len() ==> {
                    ||| (#[trigger] found@[i]).word@ == normalized(word@) && found@[i].edit == 0
                    ||| is_neighbor(normalized(word@), found@[i].word@) && found@[i].edit == 1
                },
    {
        proof {
            use_type_invariant(self);
        }
        let max_edit = self.config.get_max_edit();
        let result = search(word, max_edit, &self.dict);
        let sorted = sort_ranked(&result);
        proof {
            lemma_discovered_sound(self@.lexicon, word@, max_edit);
            lemma_ranked(views_of(result@));
            lemma_ranked_sound(self@.lexicon, views_of(result@), max_edit);
            let stream = views_of(result@);
            let best = views_of(sorted@);
            let clean = normalized(word@);
            best.to_multiset_ensures();
            stream.to_multiset_ensures();
            assert forall|i: int| 0 <= i < sorted@.len() implies {
                &&& (#[trigger] sorted@[i]).edit <= self@.config.max_edit
                &&& self@.lexicon.contains_key(sorted@[i].word@)
                &&& sorted@[i].score == self@.lexicon[sorted@[i].word@]
            } by {
                assert(best[i] == sorted@[i]@);
            }
            assert forall|i: int| 0 <= i < sorted@.len() implies traced(
                word@,
                (#[trigger] sorted@[i])@,
            ) by {
                assert(best[i] == sorted@[i]@);
                assert(best.to_multiset().count(best[i]) > 0);
                assert(stream.contains(best[i]));
                let j = choose|j: int| 0 <= j < stream.len() && stream[j] == best[i];
                lemma_discovered_traced(self@.lexicon, word@, max_edit, j);
            }
            if forall|i: int| 0 <= i < word@.len() ==> white_space(#[trigger] word@[i]) {
                lemma_normalized_blank(word@);
            }
            if clean.len() == 0 {
                lemma_blank_input(self@.lexicon, word@, max_edit);
            }
            if self@.lexicon == Map::<Seq<char>, u32>::empty() {
                lemma_empty_lexicon(word@, max_edit);
            }
            lemma_discovered_zero(self@.lexicon, word@, max_edit);
            assert forall|i: int|
                0 <= i < sorted@.len() && (#[trigger] sorted@[i]).edit == 0 implies i == 0
                && sorted@[i].word@ == clean by {
                assert(best[i] == sorted@[i]@);
                assert(best.to_multiset().count(best[i]) > 0);
                assert(stream.contains(best[i]));
                let j = choose|j: int| 0 <= j < stream.len() && stream[j] == best[i];
                assert(stream[j].edit == 0);
                if i > 0 {
                    assert(!ranks_below(best[0], best[i]));
                    assert(best.to_multiset().count(best[0]) > 0);
                    assert(stream.contains(best[0]));
                    let k = choose|k: int| 0 <= k < stream.len() && stream[k] == best[0];
                    assert(stream[k].edit == 0);
                    assert(best[0].word == best[i].word);
                }
            }
            if clean.len() > 0 && self@.lexicon.contains_key(clean) {
                lemma_exact_word_found(self@.lexicon, word@, max_edit);
                let exact = stream[0];
                assert(stream.contains(exact));
                assert(best.to_multiset().count(exact) > 0);
                assert(best.contains(exact));
                let at = choose|at: int| 0 <= at < best.len() && best[at] == exact;
                assert(best[at] == sorted@[at]@);
                assert(sorted@[at].edit == 0);
            }
            assert forall|other: Seq<char>|
                clean.len() > 0 && self@.lexicon.contains_key(other) && is_neighbor(clean, other)
                    && !is_skipped_replacement(clean, other) implies #[trigger] has_word(
                best,
                other,
            ) by {
                lemma_neighbors_found(self@.lexicon, word@, max_edit, other);
            }
            if max_edit == 1 {
                assert forall|i: int| 0 <= i < sorted@.len() implies {
                    ||| (#[trigger] sorted@[i]).word@ == clean && sorted@[i].edit == 0
                    ||| is_neighbor(clean, sorted@[i].word@) && sorted@[i].edit == 1
                } by {
                    assert(best[i] == sorted@[i]@);
                    assert(best.to_multiset().count(best[i]) > 0);
                    assert(stream.contains(best[i]));
                    let j = choose|j: int| 0 <= j < stream.len() && stream[j] == best[i];
                    lemma_single_edit(self@.lexicon, word@, j);
                }
            }
        }
        sorted
    }

    /// Searches as `candidates` does and gives each candidate to `outbox` in
    /// the order in which it is found, until none is left or the channel
    /// refuses one. Returns how many the channel took.
    pub fn candidates_into(&self, word: String, outbox: &mut Outbox) -> (sent: usize)
        ensures
            sent <= self.stream(word@).len(),
            final(outbox)@ == after_stream(old(outbox)@, self.stream(word@), sent as int),
            old(outbox)@.closed ==> sent == 0,
            !final(outbox)@.closed ==> final(outbox)@.handed == old(outbox)@.handed + self.stream(
                word@,
            ),
            self.stream(word@).to_multiset() == self.suggestions(word@).to_multiset(),
            distinct_words(self.stream(word@).take(sent as int)),
            forall|i: int|
                0 <= i < sent ==> {
                    &&& (#[trigger] self.stream(word@)[i]).edit <= self@.config.max_edit
                    &&& self@.lexicon.contains_key(self.stream(word@)[i].word)
                    &&& self.stream(word@)[i].score == self@.lexicon[self.stream(word@)[i].word]
                },
    {
        proof {
            use_type_invariant(self);
        }
        let max_edit = self.config.get_max_edit();
        let result = search(word, max_edit, &self.dict);
        let ghost stream = views_of(result@);
        let ghost before = outbox@;
        proof {
            lemma_discovered_sound(self@.lexicon, word@, max_edit);
            lemma_ranked(stream);
            assert(stream.take(0) =~= Seq::<CandidateView>::empty());
            assert(before.handed + stream.take(0) =~= before.handed);
            assert(before.offered + stream.take(0) =~= before.offered);
        }
        let mut sent: usize = 0;
        let mut open = !outbox.is_closed();
        while open && sent < result.len()
            invariant
                sent <= result.len(),
                stream == views_of(result@),
                open == !outbox@.closed,
                before.closed ==> !open && sent == 0,
                outbox@.handed == before.handed + stream.take(sent as int),
                open ==> outbox@.offered == before.offered + stream.take(sent as int),
                !open && !before.closed ==> sent < result.len() && outbox@.offered
                    == before.offered + stream.take(sent + 1),
                !open && before.closed ==> outbox@.offered == before.offered,
            decreases
                    result.len() - sent + (if open {
                        1int
                    } else {
                        0int
                    }),
        {
            proof {
                assert(stream[sent as int] == result@[sent as int]@);
                assert(stream.take(sent + 1) =~= stream.take(sent as int).push(stream[sent as int]));
                assert(before.handed + stream.take(sent + 1) =~= (before.handed + stream.take(
                    sent as int,
                )).push(stream[sent as int]));
                assert(before.offered + stream.take(sent + 1) =~= (before.offered + stream.take(
                    sent as int,
                )).push(stream[sent as int]));
            }
            if outbox.deliver(result[sent].clone()) {
                sent += 1;
            } else {
                open = false;
            }
        }
        proof {
            if sent == result.len() {
                assert(stream.take(sent as int) =~= stream);
            }
            let head = stream.take(sent as int);
            assert forall|i: int, j: int| 0 <= i < j < head.len() implies (#[trigger] head[i]).word
                != (#[trigger] head[j]).word by {
                assert(head[i] == stream[i] && head[j] == stream[j]);
            }
        }
        sent
    }

    /// Searches as `candidates` does and hands each candidate to `tx` in the
    /// order in which it is found, until none is left or the channel is
    /// closed. Returns how many were accepted. What is handed over, and when
    /// it ends, is what `candidates_into` says of a new outbox on `tx`.
    pub fn candidates_async(&self, word: String, tx: Sender<Candidate>) -> (sent: usize)
        ensures
            sent <= self.stream(word@).len(),
    {
        let mut outbox = Outbox::new(tx);
        self.candidates_into(word, &mut outbox)
    }
}

/// What `candidates` returns is what `candidates_into` gives to an outbox
/// that stays open, each candidate as often: the two differ in order alone.
pub proof fn lemma_stream_holds_suggestions(service: AutoCorrect, word: Seq<char>)
    ensures
        service.suggestions(word).to_multiset() == service.stream(word).to_multiset(),
        service.suggestions(word).len() == service.stream(word).len(),
        forall|found: CandidateView|
            service.suggestions(word).contains(found) <==> service.stream(word).contains(found),
{
    let best = service.suggestions(word);
    let stream = service.stream(word);
    lemma_ranked(stream);
    best.to_multiset_ensures();
    stream.to_multiset_ensures();
    assert forall|found: CandidateView| best.contains(found) <==> stream.contains(found) by {
        assert(best.contains(found) <==> best.to_multiset().count(found) > 0);
        assert(stream.contains(found) <==> stream.to_multiset().count(found) > 0);
    }
}

/// Two runs of `candidates` for one word, on one service or on two that hold
/// the same lexicon and go to the same distance, return the same candidates
/// in the same order.
pub proof fn lemma_candidates_repeatable(
    first: AutoCorrect,
    second: AutoCorrect,
    word: Seq<char>,
    once: Seq<Candidate>,
    again: Seq<Candidate>,
)
    requires
        first@.lexicon == second@.lexicon,
        first@.config.max_edit == second@.config.max_edit,
        views_of(once) == first.suggestions(word),
        views_of(again) == second.suggestions(word),
    ensures
        views_of(once) == views_of(again),
        views_of(once).to_multiset() == views_of(again).to_multiset(),
{
}

impl Default for AutoCorrect {
    fn default() -> (service: Self)
        ensures
            service@ == (AutoCorrectView { config: default_config(), lexicon: Map::empty() }),
    {
        Self::new()
    }
}

impl AutoCorrectConfig for AutoCorrect {
    /// Sets the largest edit distance, brought between 1 and 3. The
    /// dictionary stays.
    fn set_max_edit(&mut self, max_edit: u8)
        ensures
            final(self)@ == (AutoCorrectView {
                config: ConfigView { max_edit: clamped_edit(max_edit), ..old(self)@.config },
                lexicon: old(self)@.lexicon,
            }),
    {
        proof {
            use_type_invariant(&*self);
        }
        if max_edit == self.config.get_max_edit() {
            return ;
        }
        let mut config = self.config.clone();
        config.set_max_edit(max_edit);
        self.config = config;
    }

    #[inline]
    fn get_max_edit(&self) -> (max_edit: u8)
        ensures
            max_edit == self@.config.max_edit,
            1 <= max_edit <= 3,
    {
        self.config.get_max_edit()
    }

    fn set_pool_size(&mut self, pool_size: usize)
        ensures
            final(self)@ == (AutoCorrectView {
                config: ConfigView { pool_size, ..old(self)@.config },
                lexicon: old(self)@.lexicon,
            }),
    {
        proof {
            use_type_invariant(&*self);
        }
        let mut config = self.config.clone();
        config.set_pool_size(pool_size);
        self.config = config;
    }

    #[inline]
    fn get_pool_size(&self) -> (pool_size: usize)
        ensures
            pool_size == self@.config.pool_size,
    {
        self.config.get_pool_size()
    }

    /// Sets the locale. Where it changes and a dictionary path was given,
    /// the dictionary is dropped: the lexicon is to be loaded anew.
    fn set_locale(&mut self, locale: SupportedLocale)
        ensures
            final(self)@.config == (ConfigView { locale, ..old(self)@.config }),
            final(self)@.lexicon == if locale != old(self)@.config.locale && old(
                self,
            )@.config.override_dict.len() > 0 {
                Map::empty()
            } else {
                old(self)@.lexicon
            },
    {
        proof {
            use_type_invariant(&*self);
        }
        if locale == self.config.get_locale() {
            return ;
        }
        let mut config = self.config.clone();
        config.set_locale(locale);
        if config.get_override_dict().as_str().is_empty() {
            self.config = config;
        } else {
            *self = AutoCorrect::new_with_config(config);
        }
    }

    #[inline]
    fn get_locale(&self) -> (locale: SupportedLocale)
        ensures
            locale == self@.config.locale,
    {
        self.config.get_locale()
    }

    /// Sets the run mode. Where it changes, the dictionary is dropped: the
    /// lexicon is to be loaded anew.
    fn set_run_mode(&mut self, mode: RunMode)
        ensures
            final(self)@.config == (ConfigView { run_mode: mode, ..old(self)@.config }),
            final(self)@.lexicon == if mode != old(self)@.config.run_mode {
                Map::empty()
            } else {
                old(self)@.lexicon
            },
    {
        proof {
            use_type_invariant(&*self);
        }
        if self.config.get_run_mode() == mode {
            return ;
        }
        let mut config = self.config.clone();
        config.set_run_mode(mode);
        *self = AutoCorrect::new_with_config(config);
    }

    #[inline]
    fn get_run_mode(&self) -> (mode: RunMode)
        ensures
            mode == self@.config.run_mode,
    {
        self.config.get_run_mode()
    }

    /// Sets the dictionary path. Where it differs from the path in use, the
    /// dictionary is dropped: the lexicon is to be loaded anew.
    fn set_override_dict(&mut self, dict_path: &str)
        ensures
            final(self)@ == if dict_path@ == dict_path_of(old(self)@.config) {
                old(self)@
            } else {
                AutoCorrectView {
                    config: ConfigView { override_dict: dict_path@, ..old(self)@.config },
                    lexicon: Map::empty(),
                }
            },
    {
        proof {
            use_type_invariant(&*self);
        }
        let asked = dict_path.to_owned();
        if asked == self.config.get_dict_path() {
            return ;
        }
        let mut config = self.config.clone();
        config.set_override_dict(dict_path);
        *self = AutoCorrect::new_with_config(config);
    }

    #[inline]
    fn get_override_dict(&self) -> (dict_path: String)
        ensures
            dict_path@ == self@.config.override_dict,
    {
        self.config.get_override_dict()
    }
}

/// Upkeep of a service.
pub trait ServiceUtils {
    fn refresh_hybrid_dict(&self, custom_path: Option<String>) -> Result<(), String>;
}

impl ServiceUtils for AutoCorrect {
    /// Both run modes search the same dictionary, so nothing is left to
    /// refresh.
    fn refresh_hybrid_dict(&self, _custom_path: Option<String>) -> (done: Result<(), String>)
        ensures
            done is Ok,
    {
        Ok(())
    }
}

} // verus!
