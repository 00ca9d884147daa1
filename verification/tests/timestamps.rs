use danmaku_replay::text::{find_char, same_text, to_chars, trim, white_space};
use danmaku_replay::timestamp::{digit_of, parse_decimal, Timestamp, NANO_DIGITS};

fn nanos(text: &str) -> Option<i64> {
    Timestamp::parse(text).map(|t| t.nanos)
}

#[test]
fn whole_and_fractional_numerals() {
    assert_eq!(nanos("12.5"), Some(12_500_000_000));
    assert_eq!(nanos("7"), Some(7_000_000_000));
    assert_eq!(nanos("0"), Some(0));
    assert_eq!(nanos("3.2"), Some(3_200_000_000));
    assert_eq!(nanos("1.0"), Some(1_000_000_000));
    assert_eq!(nanos("0.000000001"), Some(1));
    assert_eq!(nanos("123.456789012"), Some(123_456_789_012));
    assert_eq!(nanos("007.50"), Some(7_500_000_000));
}

#[test]
fn a_point_may_stand_first_or_last() {
    assert_eq!(nanos(".5"), Some(500_000_000));
    assert_eq!(nanos("5."), Some(5_000_000_000));
}

#[test]
fn signs_are_read() {
    assert_eq!(nanos("-1.5"), Some(-1_500_000_000));
    assert_eq!(nanos("+1.5"), Some(1_500_000_000));
    assert_eq!(nanos("-0"), Some(0));
}

#[test]
fn what_is_no_numeral_is_refused() {
    for text in [
        "", ".", "-", "+", "abc", "1.2.3", "1,5", " 1", "1 ", "--1", "+-1", "1.-2", "inf",
        "infinity", "NaN", "1.5s", "\u{ff11}", "e5", ".e5", "-e5", "1e", "1e+", "1e-", "1e1.5",
        "1e1e1", "1ee1", "1e 1", "1e++1", "1x1", "0x10", "1_000",
    ] {
        assert_eq!(nanos(text), None, "{:?}", text);
    }
}

#[test]
fn digits_finer_than_a_nanosecond_are_cut_off() {
    assert_eq!(nanos("0.123456789"), Some(123_456_789));
    assert_eq!(nanos("0.1234567890"), Some(123_456_789));
    assert_eq!(nanos("0.1234567899999"), Some(123_456_789));
    assert_eq!(nanos("1.0000000001"), Some(1_000_000_000));
    assert_eq!(nanos("23.826000213623"), Some(23_826_000_213));
    assert_eq!(nanos("0.30000000000000004"), Some(300_000_000));
    assert_eq!(nanos("-0.9999999999"), Some(-999_999_999));
    assert_eq!(nanos("0.0000000009"), Some(0));
    assert_eq!(nanos("-0.0000000009"), Some(0));
    let long = format!("2.5{}", "0".repeat(5000));
    assert_eq!(nanos(&long), Some(2_500_000_000));
}

#[test]
fn an_exponent_moves_the_point() {
    assert_eq!(nanos("1e1"), Some(10_000_000_000));
    assert_eq!(nanos("1e3"), Some(1_000_000_000_000));
    assert_eq!(nanos("1E3"), Some(1_000_000_000_000));
    assert_eq!(nanos("1e+3"), Some(1_000_000_000_000));
    assert_eq!(nanos("1.5e2"), Some(150_000_000_000));
    assert_eq!(nanos("12.5e0"), Some(12_500_000_000));
    assert_eq!(nanos("12.5e-0"), Some(12_500_000_000));
    assert_eq!(nanos("1e-3"), Some(1_000_000));
    assert_eq!(nanos("1e-9"), Some(1));
    assert_eq!(nanos("1e-10"), Some(0));
    assert_eq!(nanos("123456e-3"), Some(123_456_000_000));
    assert_eq!(nanos("1234567890123e-12"), Some(1_234_567_890));
    assert_eq!(nanos("12345678901234e-13"), Some(1_234_567_890));
    assert_eq!(nanos(".5e1"), Some(5_000_000_000));
    assert_eq!(nanos("5.e1"), Some(50_000_000_000));
    assert_eq!(nanos("-2.5e1"), Some(-25_000_000_000));
    assert_eq!(nanos("0.000001e6"), Some(1_000_000_000));
    assert_eq!(nanos("1e0000000000000000000000000000000000000001"), Some(10_000_000_000));
}

#[test]
fn an_exponent_of_any_size_is_read() {
    assert_eq!(nanos("0e99999999999999999999999999999999999999999"), Some(0));
    assert_eq!(nanos("0.000e99999999999999999999999999999999999999999"), Some(0));
    assert_eq!(nanos("1e99999999999999999999999999999999999999999"), None);
    assert_eq!(nanos("-1e99999999999999999999999999999999999999999"), None);
    assert_eq!(nanos("1e-99999999999999999999999999999999999999999"), Some(0));
    assert_eq!(nanos("987654321e-99999999999999999999999999999999999999999"), Some(0));
    assert_eq!(nanos("1e9"), Some(1_000_000_000_000_000_000));
    assert_eq!(nanos("9e9"), Some(9_000_000_000_000_000_000));
    assert_eq!(nanos("1e10"), None);
    assert_eq!(nanos("0.00000000000000000001e30"), None);
    assert_eq!(nanos("0.00000000000000000001e29"), Some(1_000_000_000_000_000_000));
    let small = format!("0.{}1e4995", "0".repeat(4999));
    assert_eq!(nanos(&small), Some(10_000));
    let smaller = format!("0.{}1e4990", "0".repeat(4999));
    assert_eq!(nanos(&smaller), Some(0));
    let large = format!("1{}e-4990", "0".repeat(4999));
    assert_eq!(nanos(&large), Some(1_000_000_000_000_000_000));
}

#[test]
fn numerals_are_read_like_the_standard_library_reads_them() {
    for text in [
        "0", "7", "12.5", "3.2", "1.0", "0.001", "100", "1e1", "1e3", "2.5E2", "1e-3", "250e-2",
        ".5", "5.", "+4.25", "59.999", "1234.5678", "0.125e1", "86399.999",
    ] {
        let expected = (text.parse::<f64>().unwrap() * 1e9).round() as i64;
        assert_eq!(nanos(text), Some(expected), "{:?}", text);
    }
    for text in ["", ".", "e5", "1e", "1e+", "abc", "1.2.3", " 1", "1 ", "--1", "1_0"] {
        assert!(text.parse::<f64>().is_err(), "{:?}", text);
        assert_eq!(nanos(text), None, "{:?}", text);
    }
}

#[test]
fn the_range_of_64_bits_is_the_limit() {
    assert_eq!(nanos("9223372036.854775807"), Some(i64::MAX));
    assert_eq!(nanos("9223372036.854775808"), None);
    assert_eq!(nanos("-9223372036.854775808"), Some(i64::MIN));
    assert_eq!(nanos("-9223372036.854775809"), None);
    assert_eq!(nanos("9223372037"), None);
    assert_eq!(nanos("99999999999999999999999999999999999999999"), None);
    assert_eq!(nanos("-99999999999999999999999999999999999999999"), None);
}

#[test]
fn a_line_is_read_without_the_space_around_it() {
    assert_eq!(Timestamp::parse_line("1.0\n").map(|t| t.nanos), Some(1_000_000_000));
    assert_eq!(Timestamp::parse_line("  -2.5 \r\n").map(|t| t.nanos), Some(-2_500_000_000));
    assert_eq!(Timestamp::parse_line("\n"), None);
    assert_eq!(Timestamp::parse_line("1 0\n"), None);
}

#[test]
fn parse_decimal_reads_a_slice_of_characters() {
    let chars: Vec<char> = "12.5".chars().collect();
    assert_eq!(parse_decimal(&chars), Some(Timestamp { nanos: 12_500_000_000 }));
    assert_eq!(parse_decimal(&[]), None);
}

#[test]
fn submission_time_is_offset_plus_shift_in_milliseconds() {
    let offset = Timestamp::parse("3.2").unwrap();
    let shift = Timestamp::parse("1.0").unwrap();
    assert_eq!(offset.shifted_millis(shift), 4200);
}

#[test]
fn milliseconds_round_to_the_nearest() {
    let zero = Timestamp::zero();
    assert_eq!(Timestamp { nanos: 1_499_999 }.shifted_millis(zero), 1);
    assert_eq!(Timestamp { nanos: 1_500_000 }.shifted_millis(zero), 2);
    assert_eq!(Timestamp { nanos: 499_999 }.shifted_millis(zero), 0);
    assert_eq!(Timestamp { nanos: 500_000 }.shifted_millis(zero), 1);
    assert_eq!(Timestamp { nanos: -499_999 }.shifted_millis(zero), 0);
    assert_eq!(Timestamp { nanos: -500_000 }.shifted_millis(zero), -1);
    assert_eq!(Timestamp { nanos: -1_500_000 }.shifted_millis(zero), -2);
    assert_eq!(Timestamp { nanos: -1_499_999 }.shifted_millis(zero), -1);
}

#[test]
fn the_sum_is_rounded_not_its_parts() {
    let a = Timestamp::parse("0.0004").unwrap();
    let b = Timestamp::parse("0.0004").unwrap();
    assert_eq!(a.shifted_millis(Timestamp::zero()), 0);
    assert_eq!(a.shifted_millis(b), 1);
}

#[test]
fn a_negative_shift_moves_a_record_back() {
    let offset = Timestamp::parse("10").unwrap();
    let shift = Timestamp::parse("-2.5").unwrap();
    assert_eq!(offset.shifted_millis(shift), 7500);
}

#[test]
fn the_widest_sums_do_not_overflow() {
    let most = Timestamp { nanos: i64::MAX };
    let least = Timestamp { nanos: i64::MIN };
    assert_eq!(most.shifted_millis(most), 18_446_744_073_710);
    assert_eq!(least.shifted_millis(least), -18_446_744_073_710);
    assert_eq!(most.shifted_millis(least), 0);
}

#[test]
fn zero_is_the_start() {
    assert_eq!(Timestamp::zero(), Timestamp { nanos: 0 });
    assert_eq!(NANO_DIGITS, 9);
}

#[test]
fn digits_are_told_from_other_characters() {
    assert_eq!(digit_of('0'), Some(0));
    assert_eq!(digit_of('9'), Some(9));
    assert_eq!(digit_of('/'), None);
    assert_eq!(digit_of(':'), None);
    assert_eq!(digit_of('a'), None);
}

#[test]
fn characters_of_a_string() {
    assert_eq!(to_chars("a\u{e9}\u{4e2d}"), vec!['a', '\u{e9}', '\u{4e2d}']);
    assert_eq!(to_chars(""), Vec::<char>::new());
}

#[test]
fn the_first_occurrence_is_found() {
    let chars: Vec<char> = "12.5,1,25".chars().collect();
    assert_eq!(find_char(&chars, ','), 4);
    assert_eq!(find_char(&chars, '.'), 2);
    assert_eq!(find_char(&chars, 'x'), 9);
    assert_eq!(find_char(&[], ','), 0);
}

#[test]
fn texts_are_compared_character_by_character() {
    assert!(same_text("sc", "sc"));
    assert!(same_text("", ""));
    assert!(!same_text("sc", "s"));
    assert!(!same_text("s", "sc"));
    assert!(!same_text("d", "p"));
    assert!(!same_text("", "d"));
}

#[test]
fn trimming_takes_white_space_from_both_ends() {
    assert_eq!(trim("  a b \n"), "a b");
    assert_eq!(trim("12345\r\n"), "12345");
    assert_eq!(trim("\u{3000}\u{a0}x\u{2003}\u{85}"), "x");
    assert_eq!(trim(" \t\n"), "");
    assert_eq!(trim(""), "");
    assert_eq!(trim("\u{4e2d} \u{6587}"), "\u{4e2d} \u{6587}");
    assert_eq!(trim("\u{200b}x"), "\u{200b}x");
}

#[test]
fn white_space_is_what_the_standard_library_says() {
    let mut code: u32 = 0;
    while code <= 0x10ffff {
        if let Some(c) = char::from_u32(code) {
            assert_eq!(white_space(c), c.is_whitespace(), "{:x}", code);
        }
        code += 1;
    }
}
