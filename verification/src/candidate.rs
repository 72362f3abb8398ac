//! A suggested correction, and the order in which suggestions are ranked.

use std::cmp::Ordering;
use vstd::prelude::*;
use vstd::std_specs::cmp::PartialEqSpecImpl;
use vstd::std_specs::cmp::PartialOrdSpecImpl;

verus! {

/// Mathematical value of a [`Candidate`].
pub struct CandidateView {
    pub word: Seq<char>,
    pub score: u32,
    pub edit: u8,
}

/// A dictionary word offered as a correction, with its frequency score and
/// the number of edits that separate it from the input.
#[derive(Debug)]
pub struct Candidate {
    pub word: String,
    pub score: u32,
    pub edit: u8,
}

impl View for Candidate {
    type V = CandidateView;

    open spec fn view(&self) -> CandidateView {
        CandidateView { word: self.word@, score: self.score, edit: self.edit }
    }
}

/// How `a` stands against `b`: a smaller edit distance ranks higher, and at
/// equal distance the higher score does.
pub open spec fn rank_order(a: CandidateView, b: CandidateView) -> Ordering {
    if a.edit == b.edit {
        if a.score < b.score {
            Ordering::Less
        } else if a.score == b.score {
            Ordering::Equal
        } else {
            Ordering::Greater
        }
    } else if a.edit > b.edit {
        Ordering::Less
    } else {
        Ordering::Greater
    }
}

/// `a` ranks strictly below `b`.
pub open spec fn ranks_below(a: CandidateView, b: CandidateView) -> bool {
    a.edit > b.edit || (a.edit == b.edit && a.score < b.score)
}

/// The views of a sequence of candidates.
pub open spec fn views_of(items: Seq<Candidate>) -> Seq<CandidateView> {
    items.map_values(|c: Candidate| c@)
}

/// Whether some entry of `items` carries `word`.
pub open spec fn has_word(items: Seq<CandidateView>, word: Seq<char>) -> bool {
    exists|i: int| 0 <= i < items.len() && (#[trigger] items[i]).word == word
}

/// No two entries of `items` carry the same word.
pub open spec fn distinct_words(items: Seq<CandidateView>) -> bool {
    forall|i: int, j: int|
        0 <= i < j < items.len() ==> (#[trigger] items[i]).word != (#[trigger] items[j]).word
}

/// The set of words that `items` carries.
pub open spec fn word_set(items: Seq<CandidateView>) -> Set<Seq<char>> {
    Set::new(|w: Seq<char>| has_word(items, w))
}

impl Candidate {
    pub fn new(word: String, score: u32, edit: u8) -> (c: Candidate)
        ensures
            c@ == (CandidateView { word: word@, score, edit }),
    {
        Candidate { word, score, edit }
    }

    pub fn get_word(&self) -> (word: String)
        ensures
            word@ == self@.word,
    {
        self.word.clone()
    }

    /// Compares two candidates by rank.
    pub fn cmp(&self, other: &Candidate) -> (o: Ordering)
        ensures
            o == rank_order(self@, other@),
            o == Ordering::Less <==> ranks_below(self@, other@),
            o == Ordering::Greater <==> ranks_below(other@, self@),
    {
        if self.edit == other.edit {
            if self.score < other.score {
                Ordering::Less
            } else if self.score == other.score {
                Ordering::Equal
            } else {
                Ordering::Greater
            }
        } else if self.edit > other.edit {
            Ordering::Less
        } else {
            Ordering::Greater
        }
    }
}

impl Candidate {
    /// Whether this candidate ranks strictly below `other`.
    pub fn is_below(&self, other: &Candidate) -> (below: bool)
        ensures
            below == ranks_below(self@, other@),
    {
        self.edit > other.edit || (self.edit == other.edit && self.score < other.score)
    }
}

impl Clone for Candidate {
    fn clone(&self) -> (c: Self)
        ensures
            c@ == self@,
    {
        Candidate { word: self.word.clone(), score: self.score, edit: self.edit }
    }
}

impl PartialEq for Candidate {
    /// Two candidates are the same suggestion when they carry the same word.
    fn eq(&self, other: &Candidate) -> (r: bool) {
        self.word == other.word
    }
}

impl PartialEqSpecImpl for Candidate {
    open spec fn obeys_eq_spec() -> bool {
        true
    }

    open spec fn eq_spec(&self, other: &Candidate) -> bool {
        self.word@ == other.word@
    }
}

impl Eq for Candidate {

}

impl PartialOrd for Candidate {
    fn partial_cmp(&self, other: &Candidate) -> (r: Option<Ordering>) {
        Some(self.cmp(other))
    }
}

impl PartialOrdSpecImpl for Candidate {
    open spec fn obeys_partial_cmp_spec() -> bool {
        true
    }

    open spec fn partial_cmp_spec(&self, other: &Candidate) -> Option<Ordering> {
        Some(rank_order(self@, other@))
    }
}

} // verus!
