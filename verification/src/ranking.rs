//! Bringing candidates into their final order: best first, and among equals
//! the one that was found first.

use crate::candidate::distinct_words;
use crate::candidate::has_word;
use crate::candidate::ranks_below;
use crate::candidate::views_of;
use crate::candidate::Candidate;
use crate::candidate::CandidateView;
use vstd::prelude::*;
use vstd::seq_lib::to_multiset_build;
use vstd::seq_lib::to_multiset_insert;

verus! {

/// The place of `candidate` in a ranked run: behind every entry that does not
/// rank below it.
pub open spec fn rank_pos(sorted: Seq<CandidateView>, candidate: CandidateView) -> int
    decreases sorted.len(),
{
    if sorted.len() == 0 {
        0
    } else if ranks_below(sorted.last(), candidate) {
        rank_pos(sorted.drop_last(), candidate)
    } else {
        sorted.len() as int
    }
}

/// A ranked run with one more candidate at its place.
pub open spec fn place(sorted: Seq<CandidateView>, candidate: CandidateView) -> Seq<
    CandidateView,
> {
    sorted.insert(rank_pos(sorted, candidate), candidate)
}

/// The candidates of `items` in ranked order: each one is placed in turn, so
/// that equals stay in the order in which they came.
pub open spec fn ranked(items: Seq<CandidateView>) -> Seq<CandidateView>
    decreases items.len(),
{
    if items.len() == 0 {
        Seq::empty()
    } else {
        place(ranked(items.drop_last()), items.last())
    }
}

/// No entry ranks below a later one.
pub open spec fn best_first(items: Seq<CandidateView>) -> bool {
    forall|i: int, j: int|
        0 <= i < j < items.len() ==> !ranks_below(#[trigger] items[i], #[trigger] items[j])
}

/// Where a candidate is placed: every entry from there on ranks below it,
/// and the entry before does not.
pub proof fn lemma_rank_pos(sorted: Seq<CandidateView>, candidate: CandidateView)
    ensures
        0 <= rank_pos(sorted, candidate) <= sorted.len(),
        forall|j: int|
            rank_pos(sorted, candidate) <= j < sorted.len() ==> ranks_below(
                #[trigger] sorted[j],
                candidate,
            ),
        rank_pos(sorted, candidate) > 0 ==> !ranks_below(
            sorted[rank_pos(sorted, candidate) - 1],
            candidate,
        ),
    decreases sorted.len(),
{
    if sorted.len() > 0 && ranks_below(sorted.last(), candidate) {
        lemma_rank_pos(sorted.drop_last(), candidate);
        assert forall|j: int| rank_pos(sorted, candidate) <= j < sorted.len() implies ranks_below(
            #[trigger] sorted[j],
            candidate,
        ) by {
            if j < sorted.len() - 1 {
                assert(sorted.drop_last()[j] == sorted[j]);
            }
        }
        if rank_pos(sorted, candidate) > 0 {
            assert(sorted.drop_last()[rank_pos(sorted, candidate) - 1] == sorted[rank_pos(
                sorted,
                candidate,
            ) - 1]);
        }
    }
}

/// Placing a candidate keeps a ranked run ranked.
pub proof fn lemma_place_best_first(sorted: Seq<CandidateView>, candidate: CandidateView)
    requires
        best_first(sorted),
    ensures
        best_first(place(sorted, candidate)),
{
    lemma_rank_pos(sorted, candidate);
    let pos = rank_pos(sorted, candidate);
    let grown = place(sorted, candidate);
    assert forall|i: int, j: int| 0 <= i < j < grown.len() implies !ranks_below(
        #[trigger] grown[i],
        #[trigger] grown[j],
    ) by {
        if j < pos {
            assert(grown[i] == sorted[i] && grown[j] == sorted[j]);
        } else if j == pos {
            assert(grown[i] == sorted[i]);
            if i < pos - 1 {
                assert(!ranks_below(sorted[i], sorted[pos - 1]));
            }
        } else if i < pos {
            assert(grown[i] == sorted[i] && grown[j] == sorted[j - 1]);
        } else if i == pos {
            assert(grown[j] == sorted[j - 1]);
        } else {
            assert(grown[i] == sorted[i - 1] && grown[j] == sorted[j - 1]);
        }
    }
}

/// Placing a candidate adds its word to those of the run, and nothing else.
pub proof fn lemma_place_words(sorted: Seq<CandidateView>, candidate: CandidateView)
    ensures
        forall|w: Seq<char>|
            has_word(place(sorted, candidate), w) <==> (has_word(sorted, w) || w
                == candidate.word),
        distinct_words(sorted) && !has_word(sorted, candidate.word) ==> distinct_words(
            place(sorted, candidate),
        ),
{
    lemma_rank_pos(sorted, candidate);
    let pos = rank_pos(sorted, candidate);
    let grown = place(sorted, candidate);
    assert forall|w: Seq<char>| has_word(grown, w) <==> (has_word(sorted, w) || w
        == candidate.word) by {
        if has_word(grown, w) {
            let i = choose|i: int| 0 <= i < grown.len() && (#[trigger] grown[i]).word == w;
            if i < pos {
                assert(sorted[i].word == w);
            } else if i > pos {
                assert(sorted[i - 1].word == w);
            }
        }
        if has_word(sorted, w) {
            let i = choose|i: int| 0 <= i < sorted.len() && (#[trigger] sorted[i]).word == w;
            if i < pos {
                assert(grown[i].word == w);
            } else {
                assert(grown[i + 1].word == w);
            }
        }
        if w == candidate.word {
            assert(grown[pos].word == w);
        }
    }
    if distinct_words(sorted) && !has_word(sorted, candidate.word) {
        assert forall|i: int, j: int| 0 <= i < j < grown.len() implies (#[trigger] grown[i]).word
            != (#[trigger] grown[j]).word by {
            let a = if i < pos {
                i
            } else {
                i - 1
            };
            let b = if j < pos {
                j
            } else {
                j - 1
            };
            if i == pos {
                assert(sorted[b].word != candidate.word);
            } else if j == pos {
                assert(sorted[a].word != candidate.word);
            } else {
                assert(sorted[a].word != sorted[b].word);
            }
        }
    }
}

/// The ranked order is best first, holds the same candidates as often as the
/// run it was made from, and holds the same words.
pub proof fn lemma_ranked(items: Seq<CandidateView>)
    ensures
        best_first(ranked(items)),
        ranked(items).len() == items.len(),
        ranked(items).to_multiset() == items.to_multiset(),
        forall|w: Seq<char>| has_word(ranked(items), w) <==> has_word(items, w),
        distinct_words(items) ==> distinct_words(ranked(items)),
    decreases items.len(),
{
    if items.len() == 0 {
        assert(items =~= Seq::<CandidateView>::empty());
    } else {
        let head = items.drop_last();
        let last = items.last();
        lemma_ranked(head);
        lemma_rank_pos(ranked(head), last);
        lemma_place_best_first(ranked(head), last);
        lemma_place_words(ranked(head), last);
        to_multiset_insert(ranked(head), rank_pos(ranked(head), last), last);
        to_multiset_build(head, last);
        assert(head.push(last) =~= items);
        assert forall|w: Seq<char>| has_word(items, w) <==> (has_word(head, w) || w
            == last.word) by {
            if has_word(items, w) {
                let i = choose|i: int| 0 <= i < items.len() && (#[trigger] items[i]).word == w;
                if i < head.len() {
                    assert(head[i].word == w);
                }
            }
            if has_word(head, w) {
                let i = choose|i: int| 0 <= i < head.len() && (#[trigger] head[i]).word == w;
                assert(items[i].word == w);
            }
            if w == last.word {
                assert(items[items.len() - 1].word == w);
            }
        }
        if distinct_words(items) {
            assert forall|i: int, j: int| 0 <= i < j < head.len() implies (#[trigger] head[i]).word
                != (#[trigger] head[j]).word by {
                assert(items[i].word != items[j].word);
            }
            if has_word(head, last.word) {
                let i = choose|i: int|
                    0 <= i < head.len() && (#[trigger] head[i]).word == last.word;
                assert(items[i].word != items[items.len() - 1].word);
            }
        }
    }
}

/// Sorts candidates best first; equals stay in the order in which they came.
pub fn sort_ranked(found: &Vec<Candidate>) -> (sorted: Vec<Candidate>)
    ensures
        views_of(sorted@) == ranked(views_of(found@)),
{
    let ghost all = views_of(found@);
    let mut sorted: Vec<Candidate> = Vec::with_capacity(found.len());
    let mut i: usize = 0;
    assert(all.take(0) =~= Seq::<CandidateView>::empty());
    assert(views_of(sorted@) =~= Seq::<CandidateView>::empty());
    while i < found.len()
        invariant
            i <= found.len(),
            all == views_of(found@),
            views_of(sorted@) == ranked(all.take(i as int)),
        decreases found.len() - i,
    {
        let next = found[i].clone();
        let ghost held = views_of(sorted@);
        assert(all.take(i + 1).drop_last() =~= all.take(i as int));
        assert(all.take(i + 1).last() == next@);
        proof {
            lemma_ranked(all.take(i as int));
        }
        let mut pos: usize = sorted.len();
        assert(held.take(pos as int) =~= held);
        while pos > 0 && sorted[pos - 1].is_below(&next)
            invariant
                pos <= sorted.len(),
                held == views_of(sorted@),
                rank_pos(held, next@) == rank_pos(held.take(pos as int), next@),
            decreases pos,
        {
            assert(held.take(pos as int).drop_last() =~= held.take(pos - 1));
            pos -= 1;
        }
        sorted.insert(pos, next);
        assert(views_of(sorted@) =~= held.insert(pos as int, next@));
        i += 1;
    }
    assert(all.take(found@.len() as int) =~= all);
    sorted
}

} // verus!
