//! The delivery state machine: which record is submitted next, and when.
//!
//! Records are delivered one at a time, in order. A driver performs the
//! action that the machine gives, reports the outcome, and gets the next
//! action. A rejected submission is repeated after a cooldown, as often as
//! it takes; an accepted one is followed, after a shorter delay, by the next
//! record; a submission that could not be made or read aborts the run.

use vstd::prelude::*;
use crate::response::HttpApiResp;

verus! {

/// The seconds to wait before a rejected submission is repeated.
pub const RETRY_COOLDOWN_SECONDS: u64 = 60;

/// The seconds to wait after a submission was accepted.
pub const RECORD_DELAY_SECONDS: u64 = 10;

/// Where a run stands.
#[derive(Clone, Copy, Debug, PartialEq, Eq, Structural)]
pub enum DeliveryState {
    /// The record at `index` is being submitted and has not been accepted.
    Attempting { index: usize },
    /// Every record was accepted.
    Finished,
    /// A submission could not be made or its answer could not be read.
    Aborted,
}

/// What came of one submission.
#[derive(Clone, Debug)]
pub enum Outcome {
    /// The endpoint answered, and the answer was decoded.
    Response(HttpApiResp),
    /// The request could not be sent, or the answer could not be decoded.
    TransportFailure,
}

/// What the driver does next.
#[derive(Clone, Copy, Debug, PartialEq, Eq, Structural)]
pub enum Action {
    /// Wait `delay_seconds`, then submit the record at `index`.
    Submit { index: usize, delay_seconds: u64 },
    /// Wait `delay_seconds`, then end the run: every record was accepted.
    Finish { delay_seconds: u64 },
    /// End the run with a failure.
    Abort,
    /// Nothing: the run has ended already.
    Idle,
}

/// A state together with the action that leads into it.
#[derive(Clone, Copy, Debug, PartialEq, Eq, Structural)]
pub struct Transition {
    pub state: DeliveryState,
    pub action: Action,
}

impl Outcome {
    /// Whether this outcome is an answer that accepts the submission.
    pub open spec fn accepted(&self) -> bool {
        match self {
            Outcome::Response(resp) => resp.code == 0,
            Outcome::TransportFailure => false,
        }
    }

    /// Whether this outcome is an answer that rejects the submission.
    pub open spec fn rejected(&self) -> bool {
        match self {
            Outcome::Response(resp) => resp.code != 0,
            Outcome::TransportFailure => false,
        }
    }

    /// Whether this outcome is a failure of the transport.
    pub open spec fn failed(&self) -> bool {
        self is TransportFailure
    }
}

/// How a run of `total` records starts: with the first record at once, or
/// finished where there is none.
pub open spec fn first_transition(total: usize) -> Transition {
    if total == 0 {
        Transition { state: DeliveryState::Finished, action: Action::Finish { delay_seconds: 0 } }
    } else {
        Transition {
            state: DeliveryState::Attempting { index: 0 },
            action: Action::Submit { index: 0, delay_seconds: 0 },
        }
    }
}

/// How a run of `total` records goes on from `state` when a submission had
/// this outcome.
pub open spec fn next_transition(state: DeliveryState, total: usize, outcome: Outcome) -> Transition {
    match state {
        DeliveryState::Attempting { index } => if outcome.failed() {
            Transition { state: DeliveryState::Aborted, action: Action::Abort }
        } else if outcome.rejected() {
            Transition {
                state: DeliveryState::Attempting { index },
                action: Action::Submit { index, delay_seconds: RETRY_COOLDOWN_SECONDS },
            }
        } else if index + 1 < total {
            Transition {
                state: DeliveryState::Attempting { index: (index + 1) as usize },
                action: Action::Submit {
                    index: (index + 1) as usize,
                    delay_seconds: RECORD_DELAY_SECONDS,
                },
            }
        } else {
            Transition {
                state: DeliveryState::Finished,
                action: Action::Finish { delay_seconds: RECORD_DELAY_SECONDS },
            }
        },
        DeliveryState::Finished => Transition { state, action: Action::Idle },
        DeliveryState::Aborted => Transition { state, action: Action::Idle },
    }
}

/// Starts a run of `total` records.
pub fn begin(total: usize) -> (first: Transition)
    ensures
        first == first_transition(total),
{
    if total == 0 {
        Transition { state: DeliveryState::Finished, action: Action::Finish { delay_seconds: 0 } }
    } else {
        Transition {
            state: DeliveryState::Attempting { index: 0 },
            action: Action::Submit { index: 0, delay_seconds: 0 },
        }
    }
}

/// Goes on from `state` in a run of `total` records, given the outcome of
/// the submission that was last asked for.
pub fn advance(state: DeliveryState, total: usize, outcome: &Outcome) -> (next: Transition)
    ensures
        next == next_transition(state, total, *outcome),
{
    match state {
        DeliveryState::Attempting { index } => match outcome {
            Outcome::TransportFailure => Transition {
                state: DeliveryState::Aborted,
                action: Action::Abort,
            },
            Outcome::Response(resp) => {
                if !resp.is_accepted() {
                    Transition {
                        state: DeliveryState::Attempting { index },
                        action: Action::Submit { index, delay_seconds: RETRY_COOLDOWN_SECONDS },
                    }
                } else if index < total && index + 1 < total {
                    Transition {
                        state: DeliveryState::Attempting { index: index + 1 },
                        action: Action::Submit {
                            index: index + 1,
                            delay_seconds: RECORD_DELAY_SECONDS,
                        },
                    }
                } else {
                    Transition {
                        state: DeliveryState::Finished,
                        action: Action::Finish { delay_seconds: RECORD_DELAY_SECONDS },
                    }
                }
            },
        },
        DeliveryState::Finished => Transition { state, action: Action::Idle },
        DeliveryState::Aborted => Transition { state, action: Action::Idle },
    }
}

/// The state of a run of `total` records once these outcomes were reported,
/// each in answer to the action before it.
pub open spec fn state_after(total: usize, outcomes: Seq<Outcome>) -> DeliveryState
    decreases outcomes.len(),
{
    if outcomes.len() == 0 {
        first_transition(total).state
    } else {
        next_transition(
            state_after(total, outcomes.drop_last()),
            total,
            outcomes.last(),
        ).state
    }
}

/// The transition number `position` of a run: the first one at zero, then
/// the one that answers each outcome.
pub open spec fn transition_at(total: usize, outcomes: Seq<Outcome>, position: int) -> Transition {
    if position <= 0 {
        first_transition(total)
    } else {
        next_transition(
            state_after(total, outcomes.take(position - 1)),
            total,
            outcomes[position - 1],
        )
    }
}

/// The actions that a run gives: the first one, then one for each outcome.
pub open spec fn actions_of(total: usize, outcomes: Seq<Outcome>) -> Seq<Action> {
    Seq::new(outcomes.len() + 1, |position: int| transition_at(total, outcomes, position).action)
}

/// How far a state is into a run of `total` records: the number of records
/// accepted so far, and beyond every such number once the run was aborted.
pub open spec fn progress_rank(state: DeliveryState, total: usize) -> nat {
    match state {
        DeliveryState::Attempting { index } => index as nat,
        DeliveryState::Finished => total as nat,
        DeliveryState::Aborted => (total + 1) as nat,
    }
}

/// The state after the first `position` outcomes is the state that
/// transition number `position` leads into.
pub proof fn lemma_state_at(total: usize, outcomes: Seq<Outcome>, position: int)
    requires
        0 <= position <= outcomes.len(),
    ensures
        state_after(total, outcomes.take(position)) == transition_at(
            total,
            outcomes,
            position,
        ).state,
{
    if position > 0 {
        assert(outcomes.take(position).drop_last() =~= outcomes.take(position - 1));
    }
}

/// A record that is being attempted exists: its index is below the number
/// of records.
pub proof fn lemma_attempt_in_range(total: usize, outcomes: Seq<Outcome>)
    ensures
        state_after(total, outcomes) is Attempting ==> state_after(
            total,
            outcomes,
        )->Attempting_index < total,
    decreases outcomes.len(),
{
    if outcomes.len() > 0 {
        lemma_attempt_in_range(total, outcomes.drop_last());
    }
}

/// A submission is asked for exactly when the run goes on attempting, and
/// then for the record that is being attempted.
pub proof fn lemma_submit_matches_state(total: usize, outcomes: Seq<Outcome>, position: int)
    requires
        0 <= position <= outcomes.len(),
    ensures
        transition_at(total, outcomes, position).action is Submit <==> transition_at(
            total,
            outcomes,
            position,
        ).state is Attempting,
        transition_at(total, outcomes, position).action is Submit ==> transition_at(
            total,
            outcomes,
            position,
        ).action->Submit_index == transition_at(
            total,
            outcomes,
            position,
        ).state->Attempting_index,
{
    if position > 0 {
        lemma_attempt_in_range(total, outcomes.take(position - 1));
    }
}

/// A run never goes back: the longer it lasts, the farther it is.
pub proof fn lemma_progress_monotone(total: usize, outcomes: Seq<Outcome>, early: int, late: int)
    requires
        0 <= early <= late <= outcomes.len(),
    ensures
        progress_rank(state_after(total, outcomes.take(early)), total) <= progress_rank(
            state_after(total, outcomes.take(late)),
            total,
        ),
    decreases late - early,
{
    if early < late {
        lemma_progress_monotone(total, outcomes, early, late - 1);
        lemma_attempt_in_range(total, outcomes.take(late - 1));
        assert(outcomes.take(late).drop_last() =~= outcomes.take(late - 1));
    }
}

/// Rejections change nothing but the time: while every outcome is a
/// rejection, the run stays with the same record, and each action asks for
/// that record again after the cooldown.
pub proof fn lemma_rejection_repeats(
    total: usize,
    outcomes: Seq<Outcome>,
    from: int,
    to: int,
    index: usize,
)
    requires
        0 <= from <= to <= outcomes.len(),
        state_after(total, outcomes.take(from)) == (DeliveryState::Attempting { index }),
        forall|k: int| from <= k < to ==> (#[trigger] outcomes[k]).rejected(),
    ensures
        state_after(total, outcomes.take(to)) == (DeliveryState::Attempting { index }),
        forall|position: int|
            from < position <= to ==> #[trigger] actions_of(total, outcomes)[position] == (
            Action::Submit { index, delay_seconds: RETRY_COOLDOWN_SECONDS }),
    decreases to - from,
{
    if from < to {
        lemma_rejection_repeats(total, outcomes, from, to - 1, index);
        assert(outcomes.take(to).drop_last() =~= outcomes.take(to - 1));
        assert(outcomes[to - 1].rejected());
        assert(outcomes.take(to).last() == outcomes[to - 1]);
    }
}

/// An acceptance moves on, once: the action that answers it asks for the
/// next record after the delay between records, or ends the run after that
/// delay where the accepted record was the last; and no later action asks
/// for the accepted record again.
pub proof fn lemma_acceptance_is_final(
    total: usize,
    outcomes: Seq<Outcome>,
    at: int,
    index: usize,
    later: int,
)
    requires
        0 <= at < later <= outcomes.len(),
        state_after(total, outcomes.take(at)) == (DeliveryState::Attempting { index }),
        outcomes[at].accepted(),
    ensures
        actions_of(total, outcomes)[at + 1] == (if index + 1 < total {
            Action::Submit { index: (index + 1) as usize, delay_seconds: RECORD_DELAY_SECONDS }
        } else {
            Action::Finish { delay_seconds: RECORD_DELAY_SECONDS }
        }),
        !(actions_of(total, outcomes)[later] is Submit && actions_of(
            total,
            outcomes,
        )[later]->Submit_index <= index),
{
    lemma_attempt_in_range(total, outcomes.take(at));
    lemma_state_at(total, outcomes, at + 1);
    lemma_state_at(total, outcomes, later);
    lemma_progress_monotone(total, outcomes, at + 1, later);
    lemma_submit_matches_state(total, outcomes, later);
}

/// The delay between records comes once for each record: of all the actions
/// that ask for a record, only the first does so after that delay, or at
/// once for the first record; every other one is a repetition after the
/// cooldown.
pub proof fn lemma_first_attempt_delay(total: usize, outcomes: Seq<Outcome>, position: int)
    requires
        0 <= position <= outcomes.len(),
        actions_of(total, outcomes)[position] is Submit,
    ensures
        ({
            let action = actions_of(total, outcomes)[position];
            let first = position == 0 || !(actions_of(total, outcomes)[position - 1] is Submit
                && actions_of(total, outcomes)[position - 1]->Submit_index
                == action->Submit_index);
            action->Submit_delay_seconds == (if position == 0 {
                0
            } else if first {
                RECORD_DELAY_SECONDS
            } else {
                RETRY_COOLDOWN_SECONDS
            })
        }),
{
    if position > 0 {
        lemma_state_at(total, outcomes, position - 1);
        lemma_submit_matches_state(total, outcomes, position - 1);
        lemma_attempt_in_range(total, outcomes.take(position - 1));
    }
}

/// Records are submitted in order: a record is asked for only after the
/// record before it was accepted. For every action that asks for a record
/// other than the first, an earlier outcome accepted the record before it.
pub proof fn lemma_submissions_in_sequence(total: usize, outcomes: Seq<Outcome>, position: int)
    requires
        0 <= position <= outcomes.len(),
        actions_of(total, outcomes)[position] is Submit,
        actions_of(total, outcomes)[position]->Submit_index > 0,
    ensures
        exists|earlier: int|
            0 <= earlier < position && (#[trigger] outcomes[earlier]).accepted() && state_after(
                total,
                outcomes.take(earlier),
            ) == (DeliveryState::Attempting {
                index: (actions_of(total, outcomes)[position]->Submit_index - 1) as usize,
            }),
    decreases position,
{
    let index = actions_of(total, outcomes)[position]->Submit_index;
    assert(position > 0);
    let before = state_after(total, outcomes.take(position - 1));
    lemma_attempt_in_range(total, outcomes.take(position - 1));
    if outcomes[position - 1].accepted() {
        assert(before == (DeliveryState::Attempting { index: (index - 1) as usize }));
    } else {
        assert(before == (DeliveryState::Attempting { index }));
        lemma_state_at(total, outcomes, position - 1);
        lemma_submit_matches_state(total, outcomes, position - 1);
        lemma_submissions_in_sequence(total, outcomes, position - 1);
    }
}

/// The number of outcomes that accept a submission.
pub open spec fn accepted_count(outcomes: Seq<Outcome>) -> nat
    decreases outcomes.len(),
{
    if outcomes.len() == 0 {
        0
    } else {
        let last: nat = if outcomes.last().accepted() {
            1
        } else {
            0
        };
        accepted_count(outcomes.drop_last()) + last
    }
}

/// No record is skipped and none is accepted twice: while the run attempts
/// a record, the records before it are the ones accepted, one acceptance
/// each; and a run finishes with as many acceptances as it has records.
pub proof fn lemma_one_acceptance_each(total: usize, outcomes: Seq<Outcome>)
    ensures
        state_after(total, outcomes) is Attempting ==> accepted_count(outcomes) == state_after(
            total,
            outcomes,
        )->Attempting_index,
        actions_of(total, outcomes).last() is Finish ==> accepted_count(outcomes) == total,
    decreases outcomes.len(),
{
    if outcomes.len() > 0 {
        let before = outcomes.drop_last();
        lemma_one_acceptance_each(total, before);
        lemma_attempt_in_range(total, before);
        assert(outcomes.take(outcomes.len() - 1) =~= before);
    }
}

} // verus!
