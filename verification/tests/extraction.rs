use danmaku_replay::extract::{extract_document, extract_records, ExtractError};
use danmaku_replay::markup::{Attribute, MarkupEvent};

fn open(tag: &str, attributes: &[(&str, &str)]) -> MarkupEvent {
    MarkupEvent::Open {
        tag: tag.to_string(),
        attributes: attributes
            .iter()
            .map(|(name, value)| Attribute { name: name.to_string(), value: value.to_string() })
            .collect(),
    }
}

fn text(content: &str) -> MarkupEvent {
    MarkupEvent::Text(content.to_string())
}

fn close(tag: &str) -> MarkupEvent {
    MarkupEvent::Close { tag: tag.to_string() }
}

#[test]
fn packed_field_gives_the_offset() {
    let document = b"<i><d p=\"12.5,1,25,16777215\">hello</d></i>";
    let extraction = extract_document(document).unwrap();
    assert_eq!(extraction.records.len(), 1);
    assert_eq!(extraction.records[0].offset.nanos, 12_500_000_000);
    assert_eq!(extraction.records[0].text, "hello");
    assert!(extraction.fault.is_none());
}

#[test]
fn direct_field_gives_the_offset() {
    let document = b"<i><sc ts=\"7\" user=\"a\">paid</sc></i>";
    let extraction = extract_document(document).unwrap();
    assert_eq!(extraction.records.len(), 1);
    assert_eq!(extraction.records[0].offset.nanos, 7_000_000_000);
    assert_eq!(extraction.records[0].text, "paid");
}

#[test]
fn records_come_out_in_document_order() {
    let document = b"<?xml version=\"1.0\" encoding=\"UTF-8\"?>\n<i>\n  <d p=\"3.2,1\">one</d>\n  <sc ts=\"1\">two</sc>\n  <d p=\"0.001\">three</d>\n</i>\n";
    let extraction = extract_document(document).unwrap();
    let seen: Vec<(i64, String)> =
        extraction.records.iter().map(|r| (r.offset.nanos, r.text.clone())).collect();
    assert_eq!(
        seen,
        vec![
            (3_200_000_000, "one".to_string()),
            (1_000_000_000, "two".to_string()),
            (1_000_000, "three".to_string()),
        ]
    );
    assert!(extraction.fault.is_none());
}

#[test]
fn a_fault_keeps_the_records_before_it() {
    let document = b"<i><d p=\"1,1\">a</d><d p=\"2,1\">b</d><d p=\"3,1\">c</i>";
    let extraction = extract_document(document).unwrap();
    assert_eq!(extraction.records.len(), 2);
    assert_eq!(extraction.records[0].text, "a");
    assert_eq!(extraction.records[1].text, "b");
    assert!(extraction.fault.is_some());
}

#[test]
fn a_malformed_offset_fails_the_extraction() {
    let document = b"<i><d p=\"1,1\">a</d><d p=\"soon,1\">b</d></i>";
    assert_eq!(extract_document(document).err(), Some(ExtractError::MalformedOffset));
}

#[test]
fn an_empty_element_gives_an_empty_text() {
    let document = b"<i><d p=\"4.5,1\"></d><d p=\"5,1\">   </d></i>";
    let extraction = extract_document(document).unwrap();
    assert_eq!(extraction.records.len(), 2);
    assert_eq!(extraction.records[0].text, "");
    assert_eq!(extraction.records[0].offset.nanos, 4_500_000_000);
    assert_eq!(extraction.records[1].text, "");
}

#[test]
fn the_last_text_of_an_element_wins() {
    let events = vec![open("d", &[("p", "1,1")]), text("first"), text("second"), close("d")];
    let extraction = extract_records(&events).unwrap();
    assert_eq!(extraction.records.len(), 1);
    assert_eq!(extraction.records[0].text, "second");
}

#[test]
fn the_last_matching_attribute_wins() {
    let events = vec![open("d", &[("p", "1,1"), ("q", "9"), ("p", "2.25,1")]), close("d")];
    let extraction = extract_records(&events).unwrap();
    assert_eq!(extraction.records[0].offset.nanos, 2_250_000_000);
}

#[test]
fn an_earlier_malformed_duplicate_still_fails() {
    let events = vec![open("d", &[("p", "x"), ("p", "2")]), close("d")];
    assert_eq!(extract_records(&events).err(), Some(ExtractError::MalformedOffset));
}

#[test]
fn other_elements_start_a_record_afresh() {
    let events = vec![
        open("d", &[("p", "8,1")]),
        text("kept"),
        open("b", &[("p", "nonsense")]),
        close("b"),
        close("d"),
    ];
    let extraction = extract_records(&events).unwrap();
    assert_eq!(extraction.records.len(), 1);
    assert_eq!(extraction.records[0].offset.nanos, 0);
    assert_eq!(extraction.records[0].text, "");
}

#[test]
fn attributes_of_the_other_shape_are_ignored() {
    let events = vec![open("d", &[("ts", "5")]), close("d"), open("sc", &[("p", "6,1")]), close("sc")];
    let extraction = extract_records(&events).unwrap();
    assert_eq!(extraction.records.len(), 2);
    assert_eq!(extraction.records[0].offset.nanos, 0);
    assert_eq!(extraction.records[1].offset.nanos, 0);
}

#[test]
fn events_after_a_fault_are_not_read() {
    let events = vec![
        open("d", &[("p", "1")]),
        close("d"),
        MarkupEvent::Fault { message: "broken".to_string() },
        open("d", &[("p", "bad")]),
        close("d"),
    ];
    let extraction = extract_records(&events).unwrap();
    assert_eq!(extraction.records.len(), 1);
    assert_eq!(extraction.fault, Some("broken".to_string()));
}

#[test]
fn no_events_give_no_records() {
    let extraction = extract_records(&[]).unwrap();
    assert!(extraction.records.is_empty());
    assert!(extraction.fault.is_none());
}

#[test]
fn a_negative_offset_fails_the_extraction() {
    let events = vec![open("d", &[("p", "-1,1")]), close("d")];
    assert_eq!(extract_records(&events).err(), Some(ExtractError::MalformedOffset));
    let direct = vec![open("sc", &[("ts", "-0.000000001")]), close("sc")];
    assert_eq!(extract_records(&direct).err(), Some(ExtractError::MalformedOffset));
    let direct = vec![open("sc", &[("ts", "-1e-9")]), close("sc")];
    assert_eq!(extract_records(&direct).err(), Some(ExtractError::MalformedOffset));
    let zero = vec![open("sc", &[("ts", "-0")]), close("sc")];
    assert_eq!(extract_records(&zero).unwrap().records[0].offset.nanos, 0);
}

#[test]
fn an_empty_packed_value_fails_the_extraction() {
    let events = vec![open("d", &[("p", "")]), close("d")];
    assert_eq!(extract_records(&events).err(), Some(ExtractError::MalformedOffset));
    let leading_comma = vec![open("d", &[("p", ",1,2")]), close("d")];
    assert_eq!(extract_records(&leading_comma).err(), Some(ExtractError::MalformedOffset));
}

#[test]
fn a_record_element_without_its_attribute_starts_at_zero() {
    let events = vec![open("d", &[]), text("bare"), close("d")];
    let extraction = extract_records(&events).unwrap();
    assert_eq!(extraction.records[0].offset.nanos, 0);
    assert_eq!(extraction.records[0].text, "bare");
}

#[test]
fn a_stray_closing_record_tag_appends_what_is_under_construction() {
    let events = vec![close("sc"), text("late"), close("d")];
    let extraction = extract_records(&events).unwrap();
    assert_eq!(extraction.records.len(), 2);
    assert_eq!(extraction.records[0].text, "");
    assert_eq!(extraction.records[1].text, "late");
}

#[test]
fn a_document_without_a_root_keeps_nothing() {
    let extraction = extract_document(b"not markup at all").unwrap();
    assert!(extraction.records.is_empty());
    assert!(extraction.fault.is_some());
}

#[test]
fn packed_text_beyond_the_first_field_is_not_read() {
    let document = "<i><d p=\"1.25,\u{4e2d}\u{6587},x y\">\u{5f39}\u{5e55}</d></i>";
    let extraction = extract_document(document.as_bytes()).unwrap();
    assert_eq!(extraction.records[0].offset.nanos, 1_250_000_000);
    assert_eq!(extraction.records[0].text, "\u{5f39}\u{5e55}");
}

#[test]
fn an_offset_may_carry_many_digits_or_an_exponent() {
    let document =
        b"<i><d p=\"1.0000000001,1\">a</d><d p=\"23.826000213623,1\">b</d><sc ts=\"1e1\">c</sc></i>";
    let extraction = extract_document(document).unwrap();
    let seen: Vec<(i64, String)> =
        extraction.records.iter().map(|r| (r.offset.nanos, r.text.clone())).collect();
    assert_eq!(
        seen,
        vec![
            (1_000_000_000, "a".to_string()),
            (23_826_000_213, "b".to_string()),
            (10_000_000_000, "c".to_string()),
        ]
    );
}

#[test]
fn the_last_text_inside_an_element_is_its_text() {
    let document =
        b"<i><d p=\"1,1\">a<![CDATA[x]]>b</d><d p=\"2,1\">a<?pi data?></d><sc ts=\"3\"><?pi data?></sc></i>";
    let extraction = extract_document(document).unwrap();
    let seen: Vec<(i64, String)> =
        extraction.records.iter().map(|r| (r.offset.nanos, r.text.clone())).collect();
    assert_eq!(
        seen,
        vec![
            (1_000_000_000, "b".to_string()),
            (2_000_000_000, "a".to_string()),
            (3_000_000_000, String::new()),
        ]
    );
}

#[test]
fn events_of_no_interest_inside_an_element_change_nothing() {
    let events = vec![
        open("d", &[("p", "1.5,1")]),
        MarkupEvent::Other,
        text("one"),
        MarkupEvent::Other,
        text("two"),
        MarkupEvent::Other,
        MarkupEvent::Other,
        close("d"),
        MarkupEvent::Other,
        open("sc", &[("ts", "2")]),
        MarkupEvent::Other,
        close("sc"),
    ];
    let extraction = extract_records(&events).unwrap();
    let seen: Vec<(i64, String)> =
        extraction.records.iter().map(|r| (r.offset.nanos, r.text.clone())).collect();
    assert_eq!(seen, vec![(1_500_000_000, "two".to_string()), (2_000_000_000, String::new())]);
}
