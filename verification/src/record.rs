//! The timed record: one unit of text with its place on the timeline.

use vstd::prelude::*;
use crate::timestamp::Timestamp;

verus! {

/// One timed unit of text, destined for one submission.
#[derive(Clone, Debug)]
pub struct TimedRecord {
    /// The record's place on the timeline of its source.
    pub offset: Timestamp,
    /// The payload; it may be empty.
    pub text: String,
}

/// What a [`TimedRecord`] is to the contracts.
pub struct RecordView {
    pub offset_nanos: int,
    pub text: Seq<char>,
}

impl View for TimedRecord {
    type V = RecordView;

    open spec fn view(&self) -> RecordView {
        RecordView { offset_nanos: self.offset.nanos as int, text: self.text@ }
    }
}

/// The views of a run of records, in order.
pub open spec fn record_views(records: Seq<TimedRecord>) -> Seq<RecordView> {
    records.map_values(|r: TimedRecord| r@)
}

/// The record that every element starts from: at the start of the timeline,
/// with no text.
pub open spec fn blank_record() -> RecordView {
    RecordView { offset_nanos: 0, text: Seq::empty() }
}

impl TimedRecord {
    /// A record at `offset` carrying `text`.
    pub fn new(offset: Timestamp, text: String) -> (record: TimedRecord)
        ensures
            record@ == (RecordView { offset_nanos: offset.nanos as int, text: text@ }),
            record.offset == offset,
            record.text == text,
    {
        TimedRecord { offset, text }
    }

    /// The record that every element starts from.
    pub fn blank() -> (record: TimedRecord)
        ensures
            record@ == blank_record(),
    {
        TimedRecord { offset: Timestamp::zero(), text: String::new() }
    }

    /// A copy of this record.
    pub fn duplicate(&self) -> (copy: TimedRecord)
        ensures
            copy@ == self@,
    {
        TimedRecord { offset: self.offset, text: self.text.clone() }
    }
}

} // verus!
