//! The record extractor: from a document's events to its timed records.
//!
//! Two shapes of element are records. A packed record keeps its parameters,
//! separated by commas, in one attribute; the first of them is the offset. A
//! direct record keeps its offset in an attribute of its own. The extractor
//! holds one record under construction, starts it afresh when any element
//! opens, fills its text from the latest text event, and appends a copy of
//! it to the output when a record element closes.

use vstd::prelude::*;
use crate::markup::{
    attribute_views, document_events, event_views, read_events, Attribute, AttributeView,
    EventView, MarkupEvent,
};
use crate::record::{blank_record, record_views, RecordView, TimedRecord};
use crate::text::{find_char, first_index_of, lemma_first_index_of, same_text, to_chars};
use crate::timestamp::{decimal_nanos, parse_decimal, Timestamp};
use vstd::slice::slice_subrange;

verus! {

/// The two shapes of record element.
#[derive(Clone, Copy, Debug, PartialEq, Eq, Structural)]
pub enum RecordKind {
    /// The offset is the first of the comma-separated parameters.
    Packed,
    /// The offset is the whole value of an attribute.
    Direct,
}

/// Why an extraction failed.
#[derive(Clone, Copy, Debug, PartialEq, Eq, Structural)]
pub enum ExtractError {
    /// A record element's offset is no decimal numeral of seconds, is
    /// negative, or does not fit in 64 bits of nanoseconds.
    MalformedOffset,
}

/// The records of a document, and the fault that cut the reading short where
/// there was one.
#[derive(Clone, Debug)]
pub struct Extraction {
    /// The records whose elements closed before any fault, in document order.
    pub records: Vec<TimedRecord>,
    /// The message of the fault that ended the reading, if one did.
    pub fault: Option<String>,
}

/// What an [`Extraction`] is to the contracts.
pub struct ExtractionView {
    pub records: Seq<RecordView>,
    pub fault: Option<Seq<char>>,
}

impl View for Extraction {
    type V = ExtractionView;

    open spec fn view(&self) -> ExtractionView {
        ExtractionView {
            records: record_views(self.records@),
            fault: match self.fault {
                Some(message) => Some(message@),
                None => None,
            },
        }
    }
}

/// The tag of a packed record element.
pub open spec fn packed_tag() -> Seq<char> {
    "d"@
}

/// The attribute that holds a packed record's parameters.
pub open spec fn packed_attribute() -> Seq<char> {
    "p"@
}

/// The tag of a direct record element.
pub open spec fn direct_tag() -> Seq<char> {
    "sc"@
}

/// The attribute that holds a direct record's offset.
pub open spec fn direct_attribute() -> Seq<char> {
    "ts"@
}

/// The shape of record that an element with this tag is, if it is one.
pub open spec fn record_kind(tag: Seq<char>) -> Option<RecordKind> {
    if tag == packed_tag() {
        Some(RecordKind::Packed)
    } else if tag == direct_tag() {
        Some(RecordKind::Direct)
    } else {
        None
    }
}

/// The text before the first comma of `value`; all of it where it has none.
pub open spec fn first_field(value: Seq<char>) -> Seq<char> {
    value.take(first_index_of(value, ','))
}

/// The numeral that this attribute gives for the offset of an element of this
/// kind, or `None` where the attribute says nothing of the offset.
pub open spec fn offset_numeral(kind: Option<RecordKind>, attribute: AttributeView) -> Option<
    Seq<char>,
> {
    match kind {
        Some(RecordKind::Packed) => if attribute.name == packed_attribute() {
            Some(first_field(attribute.value))
        } else {
            None
        },
        Some(RecordKind::Direct) => if attribute.name == direct_attribute() {
            Some(attribute.value)
        } else {
            None
        },
        None => None,
    }
}

/// The offset, in nanoseconds, that a numeral stands for: a position on the
/// timeline, so never negative. `None` where the text is no numeral, or its
/// value is negative or does not fit in 64 bits.
pub open spec fn offset_nanos(numeral: Seq<char>) -> Option<int> {
    match decimal_nanos(numeral) {
        Some(nanos) => if nanos >= 0 {
            Some(nanos)
        } else {
            None
        },
        None => None,
    }
}

/// The offset, in nanoseconds, that the attributes give to an element of this
/// kind.
///
/// The attributes are read in order and the last one that gives an offset
/// wins; with none the offset is zero. The result is an error as soon as one
/// of them gives a malformed numeral, whatever the later ones hold.
pub open spec fn element_offset(kind: Option<RecordKind>, attributes: Seq<AttributeView>) -> Result<
    int,
    ExtractError,
>
    decreases attributes.len(),
{
    if attributes.len() == 0 {
        Ok(0)
    } else {
        match element_offset(kind, attributes.drop_last()) {
            Err(e) => Err(e),
            Ok(earlier) => match offset_numeral(kind, attributes.last()) {
                None => Ok(earlier),
                Some(numeral) => match offset_nanos(numeral) {
                    Some(nanos) => Ok(nanos),
                    None => Err(ExtractError::MalformedOffset),
                },
            },
        }
    }
}

/// `records` put in front of the records of `later`.
pub open spec fn after_records(records: Seq<RecordView>, later: Result<
    ExtractionView,
    ExtractError,
>) -> Result<ExtractionView, ExtractError> {
    match later {
        Ok(extraction) => Ok(
            ExtractionView { records: records + extraction.records, fault: extraction.fault },
        ),
        Err(e) => Err(e),
    }
}

/// What the extractor makes of `events` when `current` is the record under
/// construction.
///
/// - An opening element starts a new record, with the offset that its
///   attributes give; a malformed offset fails the whole extraction.
/// - Text replaces the text of the record under construction.
/// - A closing record element appends the record under construction.
/// - A fault ends the reading: what was appended before it is the result.
pub open spec fn extract_from(current: RecordView, events: Seq<EventView>) -> Result<
    ExtractionView,
    ExtractError,
>
    decreases events.len(),
{
    if events.len() == 0 {
        Ok(ExtractionView { records: Seq::empty(), fault: None })
    } else {
        let rest = events.drop_first();
        match events[0] {
            EventView::Open { tag, attributes } => match element_offset(
                record_kind(tag),
                attributes,
            ) {
                Ok(nanos) => extract_from(
                    RecordView { offset_nanos: nanos, text: Seq::empty() },
                    rest,
                ),
                Err(e) => Err(e),
            },
            EventView::Text(text) => extract_from(
                RecordView { offset_nanos: current.offset_nanos, text: text },
                rest,
            ),
            EventView::Close { tag } => if record_kind(tag) is Some {
                after_records(seq![current], extract_from(current, rest))
            } else {
                extract_from(current, rest)
            },
            EventView::Fault { message } => Ok(
                ExtractionView { records: Seq::empty(), fault: Some(message) },
            ),
            EventView::Other => extract_from(current, rest),
        }
    }
}

/// What the extractor makes of a whole run of events.
pub open spec fn extract(events: Seq<EventView>) -> Result<ExtractionView, ExtractError> {
    extract_from(blank_record(), events)
}

/// Whether an exec result is the one that the contracts name.
pub open spec fn extraction_is(
    result: Result<Extraction, ExtractError>,
    expected: Result<ExtractionView, ExtractError>,
) -> bool {
    match expected {
        Ok(view) => result is Ok && result->Ok_0@ == view,
        Err(e) => result == Err::<Extraction, ExtractError>(e),
    }
}

/// The shape of record that an element with this tag is, if it is one.
pub fn kind_of_tag(tag: &str) -> (kind: Option<RecordKind>)
    ensures
        kind == record_kind(tag@),
{
    if same_text(tag, "d") {
        Some(RecordKind::Packed)
    } else if same_text(tag, "sc") {
        Some(RecordKind::Direct)
    } else {
        None
    }
}

/// Reads the offset that one attribute gives to an element of this kind.
///
/// Returns `Ok(None)` where the attribute says nothing of the offset.
pub fn read_offset(kind: Option<RecordKind>, attribute: &Attribute) -> (result: Result<
    Option<Timestamp>,
    ExtractError,
>)
    ensures
        match offset_numeral(kind, attribute@) {
            None => result == Ok::<Option<Timestamp>, ExtractError>(None),
            Some(numeral) => match offset_nanos(numeral) {
                Some(nanos) => result is Ok && result->Ok_0 is Some && result->Ok_0->0.nanos
                    == nanos,
                None => result == Err::<Option<Timestamp>, ExtractError>(
                    ExtractError::MalformedOffset,
                ),
            },
        },
{
    let parsed = match kind {
        Some(RecordKind::Packed) => {
            if !same_text(attribute.name.as_str(), "p") {
                return Ok(None);
            }
            let value = to_chars(attribute.value.as_str());
            let comma = find_char(value.as_slice(), ',');
            let field = slice_subrange(value.as_slice(), 0, comma);
            assert(field@ =~= first_field(attribute.value@));
            parse_decimal(field)
        },
        Some(RecordKind::Direct) => {
            if !same_text(attribute.name.as_str(), "ts") {
                return Ok(None);
            }
            let value = to_chars(attribute.value.as_str());
            parse_decimal(value.as_slice())
        },
        None => {
            return Ok(None);
        },
    };
    match parsed {
        Some(offset) => if offset.nanos >= 0 {
            Ok(Some(offset))
        } else {
            Err(ExtractError::MalformedOffset)
        },
        None => Err(ExtractError::MalformedOffset),
    }
}

/// Reads the offset that the attributes give to an element of this kind.
pub fn read_element_offset(kind: Option<RecordKind>, attributes: &[Attribute]) -> (result: Result<
    Timestamp,
    ExtractError,
>)
    ensures
        match element_offset(kind, attribute_views(attributes@)) {
            Ok(nanos) => result is Ok && result->Ok_0.nanos == nanos,
            Err(e) => result == Err::<Timestamp, ExtractError>(e),
        },
{
    let ghost views = attribute_views(attributes@);
    let mut offset = Timestamp::zero();
    let mut index: usize = 0;
    while index < attributes.len()
        invariant
            index <= attributes.len(),
            views == attribute_views(attributes@),
            element_offset(kind, views.take(index as int)) == Ok::<int, ExtractError>(
                offset.nanos as int,
            ),
        decreases attributes.len() - index,
    {
        proof {
            assert(views.take(index + 1).drop_last() =~= views.take(index as int));
            assert(views.take(index + 1).last() == attributes@[index as int]@);
        }
        match read_offset(kind, &attributes[index]) {
            Ok(Some(found)) => {
                offset = found;
            },
            Ok(None) => {},
            Err(e) => {
                proof {
                    lemma_element_offset_fails(kind, views, index + 1);
                }
                return Err(e);
            },
        }
        index += 1;
    }
    assert(views.take(index as int) =~= views);
    Ok(offset)
}

/// The first field of a packed value is what stands before its first
/// comma, whatever follows that comma.
pub proof fn lemma_first_field(numeral: Seq<char>, rest: Seq<char>)
    requires
        forall|i: int| 0 <= i < numeral.len() ==> numeral[i] != ',',
    ensures
        first_field(numeral + seq![','] + rest) == numeral,
        first_field(numeral) == numeral,
{
    let value = numeral + seq![','] + rest;
    assert forall|i: int| 0 <= i < numeral.len() implies value[i] != ',' by {
        assert(value[i] == numeral[i]);
    }
    assert(value[numeral.len() as int] == ',');
    lemma_first_index_of(value, ',', numeral.len() as int);
    lemma_first_index_of(numeral, ',', numeral.len() as int);
    assert(value.take(numeral.len() as int) =~= numeral);
    assert(numeral.take(numeral.len() as int) =~= numeral);
}

/// Once the attributes up to some point give a malformed offset, so do all
/// of them.
pub proof fn lemma_element_offset_fails(
    kind: Option<RecordKind>,
    attributes: Seq<AttributeView>,
    upto: int,
)
    requires
        0 <= upto <= attributes.len(),
        element_offset(kind, attributes.take(upto)) is Err,
    ensures
        element_offset(kind, attributes) == Err::<int, ExtractError>(
            ExtractError::MalformedOffset,
        ),
    decreases attributes.len() - upto,
{
    if upto < attributes.len() {
        assert(attributes.take(upto + 1).drop_last() =~= attributes.take(upto));
        lemma_element_offset_fails(kind, attributes, upto + 1);
    } else {
        assert(attributes.take(upto) =~= attributes);
    }
}

/// Putting records in front in two steps is putting their concatenation in
/// front.
pub proof fn lemma_after_records_twice(
    first: Seq<RecordView>,
    second: Seq<RecordView>,
    later: Result<ExtractionView, ExtractError>,
)
    ensures
        after_records(first, after_records(second, later)) == after_records(
            first + second,
            later,
        ),
{
    if let Ok(extraction) = later {
        assert(first + (second + extraction.records) =~= (first + second) + extraction.records);
    }
}

/// Putting no records in front changes nothing.
pub proof fn lemma_after_no_records(later: Result<ExtractionView, ExtractError>)
    ensures
        after_records(Seq::empty(), later) == later,
{
    if let Ok(extraction) = later {
        assert(Seq::<RecordView>::empty() + extraction.records =~= extraction.records);
    }
}

/// An offset read from attributes is a position on the timeline: it is not
/// negative.
pub proof fn lemma_element_offset_on_timeline(
    kind: Option<RecordKind>,
    attributes: Seq<AttributeView>,
)
    ensures
        element_offset(kind, attributes) is Ok ==> element_offset(kind, attributes)->Ok_0 >= 0,
    decreases attributes.len(),
{
    if attributes.len() > 0 {
        lemma_element_offset_on_timeline(kind, attributes.drop_last());
    }
}

/// Every extracted record is on the timeline: no offset is negative.
pub proof fn lemma_records_on_timeline(current: RecordView, events: Seq<EventView>)
    requires
        current.offset_nanos >= 0,
    ensures
        extract_from(current, events) is Ok ==> forall|i: int|
            0 <= i < extract_from(current, events)->Ok_0.records.len() ==> (
            #[trigger] extract_from(current, events)->Ok_0.records[i]).offset_nanos >= 0,
    decreases events.len(),
{
    if events.len() > 0 {
        let rest = events.drop_first();
        match events[0] {
            EventView::Open { tag, attributes } => {
                lemma_element_offset_on_timeline(record_kind(tag), attributes);
                if let Ok(nanos) = element_offset(record_kind(tag), attributes) {
                    lemma_records_on_timeline(
                        RecordView { offset_nanos: nanos, text: Seq::empty() },
                        rest,
                    );
                }
            },
            EventView::Text(text) => {
                lemma_records_on_timeline(
                    RecordView { offset_nanos: current.offset_nanos, text: text },
                    rest,
                );
            },
            EventView::Close { tag } => {
                lemma_records_on_timeline(current, rest);
            },
            EventView::Fault { message } => {},
            EventView::Other => {
                lemma_records_on_timeline(current, rest);
            },
        }
    }
}

/// Records whose views are what the extractor makes of some events all have
/// an offset that is not negative.
pub proof fn lemma_offsets_on_timeline(records: Seq<TimedRecord>, events: Seq<EventView>)
    requires
        extract(events) is Ok,
        extract(events)->Ok_0.records == record_views(records),
    ensures
        forall|i: int| 0 <= i < records.len() ==> (#[trigger] records[i]).offset.nanos >= 0,
{
    lemma_records_on_timeline(blank_record(), events);
    let found = extract_from(blank_record(), events)->Ok_0.records;
    assert forall|i: int| 0 <= i < records.len() implies (#[trigger] records[i]).offset.nanos
        >= 0 by {
        assert(found[i] == records[i]@);
    }
}

/// Extracts the timed records from a run of events.
///
/// Fails where a record element's offset is malformed; otherwise returns the
/// records whose elements closed before the first fault, in order, together
/// with that fault's message where there was one. No record that comes out
/// has a negative offset.
pub fn extract_records(events: &[MarkupEvent]) -> (result: Result<Extraction, ExtractError>)
    ensures
        extraction_is(result, extract(event_views(events@))),
        result is Ok ==> forall|i: int|
            0 <= i < result->Ok_0.records@.len() ==> (#[trigger] result->Ok_0.records@[i]).offset.nanos
                >= 0,
{
    let ghost all = event_views(events@);
    let mut records: Vec<TimedRecord> = Vec::new();
    let mut current = TimedRecord::blank();
    let mut index: usize = 0;
    proof {
        assert(all.skip(0) =~= all);
        assert(record_views(records@) =~= Seq::<RecordView>::empty());
        lemma_after_no_records(extract(all));
    }
    while index < events.len()
        invariant
            index <= events.len(),
            all == event_views(events@),
            extract(all) == after_records(
                record_views(records@),
                extract_from(current@, all.skip(index as int)),
            ),
        decreases events.len() - index,
    {
        let ghost remaining = all.skip(index as int);
        let ghost before = record_views(records@);
        proof {
            assert(remaining.drop_first() =~= all.skip(index + 1));
            assert(remaining[0] == events@[index as int]@);
        }
        match &events[index] {
            MarkupEvent::Open { tag, attributes } => {
                let kind = kind_of_tag(tag.as_str());
                match read_element_offset(kind, attributes.as_slice()) {
                    Ok(offset) => {
                        current = TimedRecord::new(offset, String::new());
                    },
                    Err(e) => {
                        return Err(e);
                    },
                }
            },
            MarkupEvent::Text(text) => {
                current = TimedRecord::new(current.offset, text.clone());
            },
            MarkupEvent::Close { tag } => {
                if kind_of_tag(tag.as_str()).is_some() {
                    records.push(current.duplicate());
                    proof {
                        assert(record_views(records@) =~= before + seq![current@]);
                        lemma_after_records_twice(
                            before,
                            seq![current@],
                            extract_from(current@, all.skip(index + 1)),
                        );
                    }
                }
            },
            MarkupEvent::Fault { message } => {
                let fault = Some(message.clone());
                proof {
                    assert(before + Seq::<RecordView>::empty() =~= before);
                    lemma_offsets_on_timeline(records@, all);
                }
                return Ok(Extraction { records, fault });
            },
            MarkupEvent::Other => {},
        }
        index += 1;
    }
    proof {
        assert(record_views(records@) + Seq::<RecordView>::empty() =~= record_views(records@));
        lemma_offsets_on_timeline(records@, all);
    }
    Ok(Extraction { records, fault: None })
}

/// Extracts the timed records from a document.
///
/// The document is read to its end or to its first fault, and the events
/// are handed to [`extract_records`].
pub fn extract_document(bytes: &[u8]) -> (result: Result<Extraction, ExtractError>)
    ensures
        extraction_is(result, extract(document_events(bytes@))),
        result is Ok ==> forall|i: int|
            0 <= i < result->Ok_0.records@.len() ==> (#[trigger] result->Ok_0.records@[i]).offset.nanos
                >= 0,
{
    let events = read_events(bytes);
    extract_records(events.as_slice())
}

} // verus!
