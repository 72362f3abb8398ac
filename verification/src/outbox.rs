//! The way out of a streaming search: a channel, and the record of what was
//! offered to it and what it took.

use crate::candidate::Candidate;
use crate::candidate::CandidateView;
use std::sync::mpsc::Sender;
use vstd::prelude::*;

verus! {

/// The sending half of a channel of the standard library, opaque to the
/// verifier.
#[verifier::external_type_specification]
#[verifier::external_body]
#[verifier::reject_recursive_types(T)]
pub struct ExSender<T>(Sender<T>);

/// Hands `candidate` to the channel with `Sender::send`. The answer is
/// `false` when the receiving half is gone; nothing is claimed of it, since
/// nothing here can foresee it.
#[verifier::external_body]
fn send(tx: &Sender<Candidate>, candidate: Candidate) -> (accepted: bool) {
    tx.send(candidate).is_ok()
}

/// Mathematical value of an [`Outbox`]: whether the channel has refused a
/// candidate, the candidates that were offered to it, and those that it
/// took, both in order.
pub struct OutboxView {
    pub closed: bool,
    pub offered: Seq<CandidateView>,
    pub handed: Seq<CandidateView>,
}

/// An outbox that was offered nothing yet.
pub open spec fn empty_outbox() -> OutboxView {
    OutboxView { closed: false, offered: Seq::empty(), handed: Seq::empty() }
}

/// The outbox after `candidate` was given to it, where the channel answers
/// `accepted` if it is asked. A closed outbox asks nothing and stays as it
/// is. An open one offers the candidate: taken, it joins what was handed
/// over; refused, it closes the outbox.
pub open spec fn after_delivery(
    outbox: OutboxView,
    candidate: CandidateView,
    accepted: bool,
) -> OutboxView {
    if outbox.closed {
        outbox
    } else if accepted {
        OutboxView {
            closed: false,
            offered: outbox.offered.push(candidate),
            handed: outbox.handed.push(candidate),
        }
    } else {
        OutboxView { closed: true, offered: outbox.offered.push(candidate), handed: outbox.handed }
    }
}

/// The outbox after the candidates of `stream` were given to it one by one
/// until the first refusal, `sent` of them being taken.
pub open spec fn after_stream(
    outbox: OutboxView,
    stream: Seq<CandidateView>,
    sent: int,
) -> OutboxView {
    OutboxView {
        closed: outbox.closed || sent < stream.len(),
        offered: outbox.offered + stream.take(
            if !outbox.closed && sent < stream.len() {
                sent + 1
            } else {
                sent
            },
        ),
        handed: outbox.handed + stream.take(sent),
    }
}

/// The sending half of a channel of candidates, with the record of its use.
pub struct Outbox {
    tx: Sender<Candidate>,
    closed: bool,
    offered: Ghost<Seq<CandidateView>>,
    handed: Ghost<Seq<CandidateView>>,
}

impl View for Outbox {
    type V = OutboxView;

    closed spec fn view(&self) -> OutboxView {
        OutboxView { closed: self.closed, offered: self.offered@, handed: self.handed@ }
    }
}

impl Outbox {
    /// An open outbox on `tx`.
    pub fn new(tx: Sender<Candidate>) -> (outbox: Outbox)
        ensures
            outbox@ == empty_outbox(),
    {
        Outbox { tx, closed: false, offered: Ghost(Seq::empty()), handed: Ghost(Seq::empty()) }
    }

    /// Whether the channel has refused a candidate.
    pub fn is_closed(&self) -> (closed: bool)
        ensures
            closed == self@.closed,
    {
        self.closed
    }

    /// Gives `candidate` to the outbox. An open outbox offers it to the
    /// channel and closes when the channel refuses it; a closed one offers
    /// nothing. The answer is `true` when the channel took the candidate.
    pub fn deliver(&mut self, candidate: Candidate) -> (accepted: bool)
        ensures
            final(self)@ == after_delivery(old(self)@, candidate@, accepted),
            old(self)@.closed ==> !accepted,
    {
        if self.closed {
            return false;
        }
        let ghost offer = candidate@;
        let accepted = send(&self.tx, candidate);
        proof {
            self.offered@ = self.offered@.push(offer);
        }
        if accepted {
            proof {
                self.handed@ = self.handed@.push(offer);
            }
        } else {
            self.closed = true;
        }
        accepted
    }
}

} // verus!
