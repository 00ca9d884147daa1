//! Documents as runs of record elements, and what the extractor makes of
//! them.
//!
//! The extractor reads any run of events. This module describes the runs
//! that a document of well-formed records gives, and proves that such a
//! document yields its records, one for one and in order; also when a fault
//! cuts the reading short after them.

use vstd::prelude::*;
use crate::extract::{
    after_records, direct_tag, element_offset, extract_from, lemma_after_no_records,
    lemma_after_records_twice, packed_tag, record_kind, ExtractError, ExtractionView, RecordKind,
};
use crate::markup::{AttributeView, EventView};
use crate::record::{blank_record, RecordView};

verus! {

/// One record element: its shape, its attributes, and the events between
/// its opening and its closing.
pub struct ElementView {
    pub kind: RecordKind,
    pub attributes: Seq<AttributeView>,
    pub inner: Seq<EventView>,
}

/// One part of a document: a record element, or a single event that
/// belongs to none.
pub enum PartView {
    Record(ElementView),
    Between(EventView),
}

/// The tag of the record elements of a shape.
pub open spec fn tag_of(kind: RecordKind) -> Seq<char> {
    match kind {
        RecordKind::Packed => packed_tag(),
        RecordKind::Direct => direct_tag(),
    }
}

/// Whether an event can stand between record elements without touching the
/// records: it is no fault, and it neither opens nor closes a record
/// element.
pub open spec fn stands_between(event: EventView) -> bool {
    match event {
        EventView::Open { tag, attributes } => record_kind(tag) is None,
        EventView::Close { tag } => record_kind(tag) is None,
        EventView::Text(text) => true,
        EventView::Fault { message } => false,
        EventView::Other => true,
    }
}

/// Whether an event can stand inside a record element that has no element
/// inside it: text, in one piece or in several, or an event of no interest.
pub open spec fn stands_inside(event: EventView) -> bool {
    event is Text || event is Other
}

/// Whether a part is well formed: a record element whose offset can be read
/// and which holds no element and no fault, or an event that can stand
/// between record elements.
pub open spec fn part_well_formed(part: PartView) -> bool {
    match part {
        PartView::Record(element) => {
            &&& element_offset(Some(element.kind), element.attributes) is Ok
            &&& forall|i: int|
                0 <= i < element.inner.len() ==> stands_inside(#[trigger] element.inner[i])
        },
        PartView::Between(event) => stands_between(event),
    }
}

/// The text of the last text event among `inner`, or `otherwise` where none
/// of them is a text event.
pub open spec fn last_text(inner: Seq<EventView>, otherwise: Seq<char>) -> Seq<char>
    decreases inner.len(),
{
    if inner.len() == 0 {
        otherwise
    } else {
        match inner.last() {
            EventView::Text(text) => text,
            _ => last_text(inner.drop_last(), otherwise),
        }
    }
}

/// The events of a record element: it opens, the events inside it arrive,
/// and it closes.
pub open spec fn element_events(element: ElementView) -> Seq<EventView> {
    let open = EventView::Open { tag: tag_of(element.kind), attributes: element.attributes };
    let close = EventView::Close { tag: tag_of(element.kind) };
    seq![open] + element.inner + seq![close]
}

/// The record that an element stands for: the offset that its attributes
/// give, and the text of the last text event inside it, or no text where
/// there is none.
pub open spec fn element_record(element: ElementView) -> RecordView {
    RecordView {
        offset_nanos: element_offset(Some(element.kind), element.attributes)->Ok_0,
        text: last_text(element.inner, Seq::empty()),
    }
}

/// The events of a document, part by part.
pub open spec fn document_of(parts: Seq<PartView>) -> Seq<EventView>
    decreases parts.len(),
{
    if parts.len() == 0 {
        Seq::empty()
    } else {
        let first = match parts[0] {
            PartView::Record(element) => element_events(element),
            PartView::Between(event) => seq![event],
        };
        first + document_of(parts.drop_first())
    }
}

/// The records of a document's record elements, in document order.
pub open spec fn records_of(parts: Seq<PartView>) -> Seq<RecordView>
    decreases parts.len(),
{
    if parts.len() == 0 {
        Seq::empty()
    } else {
        let first = match parts[0] {
            PartView::Record(element) => seq![element_record(element)],
            PartView::Between(event) => Seq::empty(),
        };
        first + records_of(parts.drop_first())
    }
}

/// The number of record elements among the parts of a document.
pub open spec fn record_count(parts: Seq<PartView>) -> nat
    decreases parts.len(),
{
    if parts.len() == 0 {
        0
    } else {
        let first: nat = if parts[0] is Record {
            1
        } else {
            0
        };
        first + record_count(parts.drop_first())
    }
}

/// The two record tags differ, so each shape is told by its tag.
pub proof fn lemma_kind_of_tag(kind: RecordKind)
    ensures
        record_kind(tag_of(kind)) == Some(kind),
{
    reveal_strlit("d");
    reveal_strlit("sc");
    assert("d"@.len() != "sc"@.len());
}

/// A document has as many records as it has record elements.
pub proof fn lemma_records_counted(parts: Seq<PartView>)
    ensures
        records_of(parts).len() == record_count(parts),
    decreases parts.len(),
{
    if parts.len() > 0 {
        lemma_records_counted(parts.drop_first());
    }
}

/// The last text among some events is the last text among all but the first
/// of them, or that of the first where the others hold none.
pub proof fn lemma_last_text_first(inner: Seq<EventView>, otherwise: Seq<char>)
    requires
        inner.len() > 0,
    ensures
        last_text(inner, otherwise) == last_text(
            inner.drop_first(),
            match inner[0] {
                EventView::Text(text) => text,
                _ => otherwise,
            },
        ),
    decreases inner.len(),
{
    let start = match inner[0] {
        EventView::Text(text) => text,
        _ => otherwise,
    };
    let rest = inner.drop_first();
    let front = inner.drop_last();
    if inner.len() > 1 {
        assert(rest.len() > 0);
        assert(rest.last() == inner.last());
        if !(inner.last() is Text) {
            lemma_last_text_first(front, otherwise);
            assert(front.drop_first() =~= rest.drop_last());
            assert(front[0] == inner[0]);
            assert(last_text(inner, otherwise) == last_text(front, otherwise));
            assert(last_text(rest, start) == last_text(rest.drop_last(), start));
        }
    } else {
        assert(inner.last() == inner[0]);
        assert(rest.len() == 0);
        assert(front.len() == 0);
        assert(last_text(rest, start) == start);
        assert(last_text(front, otherwise) == otherwise);
    }
}

/// What the extractor makes of the events inside a record element: it goes
/// on with the same offset and with the text of the last text event, or
/// with the text it had where there is none.
pub proof fn lemma_inner_events(current: RecordView, inner: Seq<EventView>, tail: Seq<EventView>)
    requires
        forall|i: int| 0 <= i < inner.len() ==> stands_inside(#[trigger] inner[i]),
    ensures
        extract_from(current, inner + tail) == extract_from(
            RecordView {
                offset_nanos: current.offset_nanos,
                text: last_text(inner, current.text),
            },
            tail,
        ),
    decreases inner.len(),
{
    if inner.len() == 0 {
        assert(inner + tail =~= tail);
    } else {
        let events = inner + tail;
        let rest = inner.drop_first();
        assert(events[0] == inner[0]);
        assert(events.drop_first() =~= rest + tail);
        assert(stands_inside(inner[0]));
        let next = match inner[0] {
            EventView::Text(text) => RecordView { offset_nanos: current.offset_nanos, text: text },
            _ => current,
        };
        assert(extract_from(current, events) == extract_from(next, rest + tail));
        assert forall|i: int| 0 <= i < rest.len() implies stands_inside(#[trigger] rest[i]) by {
            assert(rest[i] == inner[i + 1]);
        }
        lemma_inner_events(next, rest, tail);
        lemma_last_text_first(inner, current.text);
    }
}

/// What the extractor makes of a well-formed document followed by `tail`,
/// where `tail` is empty or starts with a fault: the document's records,
/// then what it makes of `tail`.
pub proof fn lemma_document_then(current: RecordView, parts: Seq<PartView>, tail: Seq<EventView>)
    requires
        forall|i: int| 0 <= i < parts.len() ==> part_well_formed(#[trigger] parts[i]),
        tail.len() == 0 || tail[0] is Fault,
    ensures
        extract_from(current, document_of(parts) + tail) == after_records(
            records_of(parts),
            extract_from(blank_record(), tail),
        ),
    decreases parts.len(),
{
    if parts.len() == 0 {
        assert(document_of(parts) + tail =~= tail);
        lemma_after_no_records(extract_from(blank_record(), tail));
    } else {
        let rest = parts.drop_first();
        let later = document_of(rest) + tail;
        let whole = document_of(parts) + tail;
        assert forall|i: int| 0 <= i < rest.len() implies part_well_formed(#[trigger] rest[i]) by {
            assert(rest[i] == parts[i + 1]);
        }
        assert(part_well_formed(parts[0]));
        match parts[0] {
            PartView::Between(event) => {
                assert(whole =~= seq![event] + later);
                assert(whole.drop_first() =~= later);
                assert(whole[0] == event);
                let next = match event {
                    EventView::Open { tag, attributes } => RecordView {
                        offset_nanos: 0,
                        text: Seq::empty(),
                    },
                    EventView::Text(text) => RecordView {
                        offset_nanos: current.offset_nanos,
                        text: text,
                    },
                    _ => current,
                };
                if let EventView::Open { tag, attributes } = event {
                    lemma_offset_of_other_element(attributes);
                }
                assert(extract_from(current, whole) == extract_from(next, later));
                lemma_document_then(next, rest, tail);
                assert(records_of(parts) =~= records_of(rest));
            },
            PartView::Record(element) => {
                let record = element_record(element);
                let tag = tag_of(element.kind);
                lemma_kind_of_tag(element.kind);
                let open = EventView::Open { tag, attributes: element.attributes };
                let close = EventView::Close { tag };
                let opened = RecordView { offset_nanos: record.offset_nanos, text: Seq::empty() };
                assert(whole =~= element_events(element) + later);
                assert(whole[0] == open);
                let closing = seq![close] + later;
                assert(closing[0] == close);
                assert(closing.drop_first() =~= later);
                assert(whole.drop_first() =~= element.inner + closing);
                assert(extract_from(current, whole) == extract_from(
                    opened,
                    element.inner + closing,
                ));
                lemma_inner_events(opened, element.inner, closing);
                assert(extract_from(record, closing) == after_records(
                    seq![record],
                    extract_from(record, later),
                ));
                lemma_document_then(record, rest, tail);
                lemma_after_records_twice(
                    seq![record],
                    records_of(rest),
                    extract_from(blank_record(), tail),
                );
            },
        }
    }
}

/// An element that is no record has the offset zero, whatever its
/// attributes.
pub proof fn lemma_offset_of_other_element(attributes: Seq<AttributeView>)
    ensures
        element_offset(None, attributes) == Ok::<int, ExtractError>(0),
    decreases attributes.len(),
{
    if attributes.len() > 0 {
        lemma_offset_of_other_element(attributes.drop_last());
    }
}

/// A well-formed document yields its records: as many as it has record
/// elements, each with the offset and the text of its element, in document
/// order, and no fault.
pub proof fn lemma_extraction_in_order(current: RecordView, parts: Seq<PartView>)
    requires
        forall|i: int| 0 <= i < parts.len() ==> part_well_formed(#[trigger] parts[i]),
    ensures
        extract_from(current, document_of(parts)) == Ok::<ExtractionView, ExtractError>(
            ExtractionView { records: records_of(parts), fault: None },
        ),
        records_of(parts).len() == record_count(parts),
{
    lemma_document_then(current, parts, Seq::empty());
    assert(document_of(parts) + Seq::<EventView>::empty() =~= document_of(parts));
    assert(records_of(parts) + Seq::<RecordView>::empty() =~= records_of(parts));
    lemma_records_counted(parts);
}

/// A fault after a well-formed start keeps what was read: the records of
/// the parts before the fault, all of them and no others, with the fault's
/// message, whatever follows the fault.
pub proof fn lemma_partial_result(
    current: RecordView,
    parts: Seq<PartView>,
    message: Seq<char>,
    rest: Seq<EventView>,
)
    requires
        forall|i: int| 0 <= i < parts.len() ==> part_well_formed(#[trigger] parts[i]),
    ensures
        extract_from(
            current,
            document_of(parts) + seq![EventView::Fault { message }] + rest,
        ) == Ok::<ExtractionView, ExtractError>(
            ExtractionView { records: records_of(parts), fault: Some(message) },
        ),
        records_of(parts).len() == record_count(parts),
{
    let tail = seq![EventView::Fault { message }] + rest;
    assert(tail[0] == EventView::Fault { message });
    lemma_document_then(current, parts, tail);
    assert(document_of(parts) + seq![EventView::Fault { message }] + rest =~= document_of(parts)
        + tail);
    assert(records_of(parts) + Seq::<RecordView>::empty() =~= records_of(parts));
    lemma_records_counted(parts);
}

} // verus!
