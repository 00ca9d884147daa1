//! What is sent for one record, and what comes back.
//!
//! A record is submitted as a form of nine fields. Seven of them are the same
//! for every record of a run; the text is the record's own; and the progress
//! is the record's offset moved by the run's shift, in whole milliseconds.

use vstd::prelude::*;
use vstd::string::StringExecFns;
use crate::record::{RecordView, TimedRecord};
use crate::text::{trim, trimmed};
use crate::timestamp::{round_to_millis, Timestamp};

verus! {

/// The target of a run: what is submitted to, and the token that lets it be.
#[derive(Clone, Debug)]
pub struct Target {
    /// The identifier of the content that the records are attached to.
    pub oid: String,
    /// The identifier of the video.
    pub bvid: String,
    /// The token that protects the submission against forgery.
    pub csrf: String,
}

/// What a [`Target`] is to the contracts.
pub struct TargetView {
    pub oid: Seq<char>,
    pub bvid: Seq<char>,
    pub csrf: Seq<char>,
}

impl View for Target {
    type V = TargetView;

    open spec fn view(&self) -> TargetView {
        TargetView { oid: self.oid@, bvid: self.bvid@, csrf: self.csrf@ }
    }
}

/// One field of a submitted form.
#[derive(Clone, Debug)]
pub struct FormField {
    pub name: String,
    pub value: String,
}

/// What a [`FormField`] is to the contracts.
pub struct FieldView {
    pub name: Seq<char>,
    pub value: Seq<char>,
}

impl View for FormField {
    type V = FieldView;

    open spec fn view(&self) -> FieldView {
        FieldView { name: self.name@, value: self.value@ }
    }
}

/// The views of a run of fields, in order.
pub open spec fn field_views(fields: Seq<FormField>) -> Seq<FieldView> {
    fields.map_values(|f: FormField| f@)
}

/// The character that writes the digit `d`.
pub open spec fn digit_char(d: int) -> char {
    if d == 0 {
        '0'
    } else if d == 1 {
        '1'
    } else if d == 2 {
        '2'
    } else if d == 3 {
        '3'
    } else if d == 4 {
        '4'
    } else if d == 5 {
        '5'
    } else if d == 6 {
        '6'
    } else if d == 7 {
        '7'
    } else if d == 8 {
        '8'
    } else {
        '9'
    }
}

/// The decimal numeral of a natural number, without leading zeros.
pub open spec fn natural_text(n: nat) -> Seq<char>
    decreases n,
{
    if n < 10 {
        seq![digit_char(n as int)]
    } else {
        natural_text(n / 10).push(digit_char((n % 10) as int))
    }
}

/// The decimal numeral of a whole number, with a minus sign where it is
/// negative.
pub open spec fn integer_text(n: int) -> Seq<char> {
    if n < 0 {
        seq!['-'] + natural_text((-n) as nat)
    } else {
        natural_text(n as nat)
    }
}

/// The progress of a record in a run whose shift is `shift_nanos`: its
/// offset moved by the shift, in milliseconds, rounded to the nearest.
pub open spec fn progress_millis(record: RecordView, shift_nanos: int) -> int {
    round_to_millis(record.offset_nanos + shift_nanos)
}

/// A form field with the given name and value.
pub open spec fn field(name: Seq<char>, value: Seq<char>) -> FieldView {
    FieldView { name, value }
}

/// The form submitted for a record.
pub open spec fn submission_form(record: RecordView, shift_nanos: int, target: TargetView) -> Seq<
    FieldView,
> {
    seq![
        field("type"@, "1"@),
        field("oid"@, target.oid),
        field("bvid"@, target.bvid),
        field("msg"@, record.text),
        field("progress"@, integer_text(progress_millis(record, shift_nanos))),
        field("pool"@, "0"@),
        field("mode"@, "1"@),
        field("rnd"@, "2"@),
        field("csrf"@, target.csrf),
    ]
}

/// The numeral of one digit.
fn digit_text(d: u64) -> (text: &'static str)
    requires
        d < 10,
    ensures
        text@ == seq![digit_char(d as int)],
{
    proof {
        reveal_strlit("0");
        reveal_strlit("1");
        reveal_strlit("2");
        reveal_strlit("3");
        reveal_strlit("4");
        reveal_strlit("5");
        reveal_strlit("6");
        reveal_strlit("7");
        reveal_strlit("8");
        reveal_strlit("9");
    }
    let text = if d == 0 {
        "0"
    } else if d == 1 {
        "1"
    } else if d == 2 {
        "2"
    } else if d == 3 {
        "3"
    } else if d == 4 {
        "4"
    } else if d == 5 {
        "5"
    } else if d == 6 {
        "6"
    } else if d == 7 {
        "7"
    } else if d == 8 {
        "8"
    } else {
        "9"
    };
    assert(text@ =~= seq![digit_char(d as int)]);
    text
}

/// Appends the decimal numeral of `n` to `out`.
fn push_natural(n: u64, out: &mut String)
    ensures
        final(out)@ == old(out)@ + natural_text(n as nat),
    decreases n,
{
    if n >= 10 {
        push_natural(n / 10, out);
    }
    let ghost before = out@;
    out.append(digit_text(n % 10));
    proof {
        if n >= 10 {
            assert(out@ =~= old(out)@ + natural_text((n / 10) as nat).push(
                digit_char((n % 10) as int),
            ));
        } else {
            assert(out@ =~= old(out)@ + seq![digit_char(n as int)]);
        }
    }
}

/// The decimal numeral of `n`.
pub fn integer_to_text(n: i64) -> (text: String)
    ensures
        text@ == integer_text(n as int),
{
    let mut text = String::new();
    if n < 0 {
        proof {
            reveal_strlit("-");
        }
        text.append("-");
        assert(text@ =~= seq!['-']);
        let magnitude: u64 = (-(n as i128)) as u64;
        push_natural(magnitude, &mut text);
    } else {
        push_natural(n as u64, &mut text);
        assert(text@ =~= natural_text(n as nat));
    }
    text
}

impl Target {
    /// The target that three lines of input name: each line without the
    /// white space around it.
    pub fn from_lines(oid: &str, bvid: &str, csrf: &str) -> (target: Target)
        ensures
            target@ == (TargetView {
                oid: trimmed(oid@),
                bvid: trimmed(bvid@),
                csrf: trimmed(csrf@),
            }),
    {
        Target {
            oid: String::from_str(trim(oid)),
            bvid: String::from_str(trim(bvid)),
            csrf: String::from_str(trim(csrf)),
        }
    }
}

/// A form field with the given name and value.
fn make_field(name: &str, value: &str) -> (made: FormField)
    ensures
        made@ == field(name@, value@),
{
    FormField { name: String::from_str(name), value: String::from_str(value) }
}

/// The progress of `record` in a run shifted by `shift`, in milliseconds.
pub fn progress_of(record: &TimedRecord, shift: Timestamp) -> (millis: i64)
    ensures
        millis == progress_millis(record@, shift.nanos as int),
{
    record.offset.shifted_millis(shift)
}

/// The form to submit for `record` in a run shifted by `shift` and aimed at
/// `target`.
pub fn prepare_submission(record: &TimedRecord, shift: Timestamp, target: &Target) -> (form: Vec<
    FormField,
>)
    ensures
        field_views(form@) == submission_form(record@, shift.nanos as int, target@),
{
    let progress = integer_to_text(progress_of(record, shift));
    let mut form: Vec<FormField> = Vec::new();
    form.push(make_field("type", "1"));
    form.push(make_field("oid", target.oid.as_str()));
    form.push(make_field("bvid", target.bvid.as_str()));
    form.push(make_field("msg", record.text.as_str()));
    form.push(make_field("progress", progress.as_str()));
    form.push(make_field("pool", "0"));
    form.push(make_field("mode", "1"));
    form.push(make_field("rnd", "2"));
    form.push(make_field("csrf", target.csrf.as_str()));
    assert(field_views(form@) =~= submission_form(record@, shift.nanos as int, target@));
    form
}

} // verus!
