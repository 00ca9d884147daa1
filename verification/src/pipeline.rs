//! The delivery pipeline: the records of a run, bound to the state machine.
//!
//! A pipeline owns the records, the shift and the target of a run. It hands
//! its driver one step at a time: an action, and with each submission the
//! form to send. The driver reports what came of the submission and gets
//! the next step. The pipeline never changes or reorders its records.

use vstd::prelude::*;
use crate::delivery::{
    actions_of, advance, begin, first_transition, lemma_attempt_in_range, next_transition,
    state_after, Action, DeliveryState, Outcome,
};
use crate::record::{record_views, RecordView, TimedRecord};
use crate::submission::{
    field_views, prepare_submission, submission_form, FieldView, FormField, Target, TargetView,
};
use crate::timestamp::Timestamp;

verus! {

/// One step of a run: what to do, and what to send where a record is to be
/// submitted.
#[derive(Clone, Debug)]
pub struct Step {
    pub action: Action,
    /// The form to submit; present exactly with [`Action::Submit`].
    pub form: Option<Vec<FormField>>,
}

/// The form that goes with an action: that of the record it asks for, and
/// none with any other action.
pub open spec fn form_of(
    action: Action,
    records: Seq<RecordView>,
    shift_nanos: int,
    target: TargetView,
) -> Option<Seq<FieldView>> {
    match action {
        Action::Submit { index, delay_seconds } => if index < records.len() {
            Some(submission_form(records[index as int], shift_nanos, target))
        } else {
            None
        },
        _ => None,
    }
}

/// The form that goes with a submission depends on the record alone: asked
/// for again, after whatever delay, a record is submitted with the same
/// form, and so with the same progress.
pub proof fn lemma_form_is_fixed(
    index: usize,
    first_delay: u64,
    later_delay: u64,
    records: Seq<RecordView>,
    shift_nanos: int,
    target: TargetView,
)
    ensures
        form_of(
            Action::Submit { index, delay_seconds: first_delay },
            records,
            shift_nanos,
            target,
        ) == form_of(
            Action::Submit { index, delay_seconds: later_delay },
            records,
            shift_nanos,
            target,
        ),
{
}

impl Step {
    /// The form of this step as the contracts see it.
    pub open spec fn form_view(&self) -> Option<Seq<FieldView>> {
        match self.form {
            Some(form) => Some(field_views(form@)),
            None => None,
        }
    }
}

/// How far a run has come: the outcomes reported, and where they led.
struct Progress {
    state: DeliveryState,
    pending: Action,
    history: Ghost<Seq<Outcome>>,
}

/// A run in progress.
pub struct Pipeline {
    records: Vec<TimedRecord>,
    shift: Timestamp,
    target: Target,
    progress: Progress,
}

impl Pipeline {
    #[verifier::type_invariant]
    spec fn consistent(&self) -> bool {
        &&& self.progress.state == state_after(self.records.len(), self.progress.history@)
        &&& self.progress.pending == actions_of(
            self.records.len(),
            self.progress.history@,
        ).last()
    }

    /// The records of the run, in the order of their submission.
    pub closed spec fn records(&self) -> Seq<RecordView> {
        record_views(self.records@)
    }

    /// The shift of the run, in nanoseconds.
    pub closed spec fn shift_nanos(&self) -> int {
        self.shift.nanos as int
    }

    /// The target of the run.
    pub closed spec fn target(&self) -> TargetView {
        self.target@
    }

    /// The outcomes reported so far, oldest first.
    pub closed spec fn history(&self) -> Seq<Outcome> {
        self.progress.history@
    }

    /// Where the run stands.
    pub closed spec fn state(&self) -> DeliveryState {
        self.progress.state
    }

    /// The action that the driver was last given.
    pub closed spec fn pending(&self) -> Action {
        self.progress.pending
    }

    /// The number of records, as the machine counts them.
    pub open spec fn total(&self) -> usize {
        self.records().len() as usize
    }

    /// A run of these records, moved by `shift` and aimed at `target`, with
    /// nothing reported yet.
    pub fn new(records: Vec<TimedRecord>, shift: Timestamp, target: Target) -> (pipeline: Pipeline)
        ensures
            pipeline.records() == record_views(records@),
            pipeline.shift_nanos() == shift.nanos,
            pipeline.target() == target@,
            pipeline.history() == Seq::<Outcome>::empty(),
            pipeline.state() == first_transition(records.len()).state,
            pipeline.pending() == first_transition(records.len()).action,
    {
        let first = begin(records.len());
        Pipeline {
            records,
            shift,
            target,
            progress: Progress {
                state: first.state,
                pending: first.action,
                history: Ghost(Seq::empty()),
            },
        }
    }

    /// The number of records in the run.
    pub fn len(&self) -> (total: usize)
        ensures
            total == self.records().len(),
    {
        self.records.len()
    }

    /// Where the run stands: where the machine stands after the outcomes
    /// reported so far.
    pub fn current_state(&self) -> (state: DeliveryState)
        ensures
            state == self.state(),
            state == state_after(self.total(), self.history()),
            state is Attempting ==> state->Attempting_index < self.records().len(),
    {
        proof {
            use_type_invariant(self);
            lemma_attempt_in_range(self.records.len(), self.progress.history@);
        }
        self.progress.state
    }

    /// The record at `index`, if the run has that many.
    pub fn record(&self, index: usize) -> (record: Option<&TimedRecord>)
        ensures
            match record {
                Some(found) => index < self.records().len() && found@ == self.records()[
                    index as int],
                None => index >= self.records().len(),
            },
    {
        if index < self.records.len() {
            Some(&self.records[index])
        } else {
            None
        }
    }

    /// The step that goes with an action of this run.
    fn step_for(&self, action: Action) -> (step: Step)
        ensures
            step.action == action,
            step.form_view() == form_of(
                action,
                self.records(),
                self.shift_nanos(),
                self.target(),
            ),
    {
        let form = match action {
            Action::Submit { index, delay_seconds } => {
                if index < self.records.len() {
                    Some(prepare_submission(&self.records[index], self.shift, &self.target))
                } else {
                    None
                }
            },
            _ => None,
        };
        Step { action, form }
    }

    /// The step that the driver is to perform now: the first one of the run
    /// where nothing was reported yet, and else the one that answered the
    /// last report.
    pub fn current_step(&self) -> (step: Step)
        ensures
            step.action == self.pending(),
            step.action == actions_of(self.total(), self.history()).last(),
            step.form_view() == form_of(
                self.pending(),
                self.records(),
                self.shift_nanos(),
                self.target(),
            ),
    {
        proof {
            use_type_invariant(self);
        }
        self.step_for(self.progress.pending)
    }

    /// Takes the outcome of the submission that the current step asked for,
    /// and gives the next step.
    pub fn report(&mut self, outcome: Outcome) -> (step: Step)
        ensures
            final(self).records() == old(self).records(),
            final(self).shift_nanos() == old(self).shift_nanos(),
            final(self).target() == old(self).target(),
            final(self).history() == old(self).history().push(outcome),
            final(self).state() == next_transition(
                old(self).state(),
                old(self).total(),
                outcome,
            ).state,
            final(self).pending() == step.action,
            step.action == next_transition(old(self).state(), old(self).total(), outcome).action,
            final(self).state() == state_after(final(self).total(), final(self).history()),
            step.action == actions_of(final(self).total(), final(self).history()).last(),
            step.form_view() == form_of(
                step.action,
                old(self).records(),
                old(self).shift_nanos(),
                old(self).target(),
            ),
    {
        proof {
            use_type_invariant(&*self);
        }
        let next = advance(self.progress.state, self.records.len(), &outcome);
        let ghost longer = self.progress.history@.push(outcome);
        proof {
            assert(longer.drop_last() =~= self.progress.history@);
            assert(longer.take(longer.len() - 1) =~= self.progress.history@);
        }
        self.progress = Progress { state: next.state, pending: next.action, history: Ghost(longer) };
        self.step_for(next.action)
    }
}

} // verus!
