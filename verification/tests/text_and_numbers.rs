use std::io::BufRead;

use cert_store::days::{parse_days, DaysError, SECONDS_PER_DAY};
use cert_store::number::{parse_u64, parse_usize, render_decimal, NumberError};
use cert_store::path::join;
use cert_store::text::{fields, lines, pad_left_text, same_text, trim, words};

fn number_error_of(e: &std::num::ParseIntError) -> NumberError {
    match e.kind() {
        std::num::IntErrorKind::Empty => NumberError::Empty,
        std::num::IntErrorKind::InvalidDigit => NumberError::InvalidDigit,
        std::num::IntErrorKind::PosOverflow => NumberError::PosOverflow,
        other => panic!("unexpected kind {other:?}"),
    }
}

const SAMPLES: &[&str] = &[
    "",
    "0",
    "7",
    "+7",
    "-7",
    "+",
    "-",
    "00012",
    "12a",
    "a12",
    " 12",
    "18446744073709551615",
    "18446744073709551616",
    "99999999999999999999x",
    "1844674407370955161x",
    "٣",
    "+-1",
    "4294967295",
    "4294967296",
];

#[test]
fn parse_u64_agrees_with_std() {
    for s in SAMPLES {
        let expected = s.parse::<u64>().map_err(|e| number_error_of(&e));
        assert_eq!(parse_u64(s), expected, "{s:?}");
    }
}

#[test]
fn parse_usize_agrees_with_std() {
    for s in SAMPLES {
        let expected = s.parse::<usize>().map_err(|e| number_error_of(&e));
        assert_eq!(parse_usize(s), expected, "{s:?}");
    }
}

#[test]
fn render_decimal_agrees_with_to_string() {
    for n in [0u64, 1, 9, 10, 99, 100, 12345, u64::MAX] {
        assert_eq!(render_decimal(n), n.to_string());
        assert_eq!(parse_u64(&render_decimal(n)), Ok(n));
    }
}

#[test]
fn parse_days_accepts_plain_and_suffixed_numbers() {
    assert_eq!(parse_days("30"), Ok(30 * 86400));
    assert_eq!(parse_days("30d"), Ok(30 * 86400));
    assert_eq!(parse_days(" 30 d "), Ok(30 * 86400));
    assert_eq!(parse_days("\t365d\n"), Ok(365 * 86400));
    assert_eq!(parse_days("+1"), Ok(86400));
    assert_eq!(parse_days("0"), Ok(0));
    assert_eq!(SECONDS_PER_DAY, 86400);
}

#[test]
fn parse_days_refusals() {
    assert_eq!(parse_days(""), Err(DaysError::Number(NumberError::Empty)));
    assert_eq!(parse_days("d"), Err(DaysError::Number(NumberError::Empty)));
    assert_eq!(parse_days("  "), Err(DaysError::Number(NumberError::Empty)));
    assert_eq!(parse_days("ten"), Err(DaysError::Number(NumberError::InvalidDigit)));
    assert_eq!(parse_days("-1"), Err(DaysError::Number(NumberError::InvalidDigit)));
    assert_eq!(parse_days("30dd"), Err(DaysError::Number(NumberError::InvalidDigit)));
    assert_eq!(parse_days("3 0"), Err(DaysError::Number(NumberError::InvalidDigit)));
    assert_eq!(
        parse_days("18446744073709551616"),
        Err(DaysError::Number(NumberError::PosOverflow))
    );
    assert_eq!(parse_days("213503982334601"), Ok(213503982334601 * 86400));
    assert_eq!(parse_days("213503982334602"), Err(DaysError::TooLarge));
}

#[test]
fn parse_days_round_trip_of_rendered_days() {
    for days in [0u64, 1, 10, 3650, 213503982334601] {
        let text = render_decimal(days);
        assert_eq!(parse_days(&text), Ok(days * 86400));
        assert_eq!(parse_days(&format!("{text}d")), Ok(days * 86400));
        assert_eq!(parse_days(&format!(" {text} d ")), Ok(days * 86400));
    }
}

const TEXTS: &[&str] = &[
    "",
    "a",
    "  a b  ",
    "\u{3000}x\u{85}",
    "\u{a0}\u{2009}y z\u{200a}\t",
    "line1\nline2\r\nline3",
    "a\r",
    "a\r\n\r\n",
    "\n\n",
    "x:y::z:",
    ":",
    "tab\tsep  and\u{2028}lines",
];

#[test]
fn trim_agrees_with_std() {
    for s in TEXTS {
        assert_eq!(trim(s), s.trim(), "{s:?}");
    }
}

#[test]
fn lines_agree_with_buf_read() {
    for s in TEXTS {
        let expected: Vec<String> =
            std::io::Cursor::new(s.as_bytes()).lines().map(|l| l.unwrap()).collect();
        assert_eq!(lines(s), expected, "{s:?}");
    }
}

#[test]
fn fields_agree_with_split() {
    for s in TEXTS {
        let expected: Vec<String> = s.split(':').map(|x| x.to_string()).collect();
        assert_eq!(fields(s, ':'), expected, "{s:?}");
    }
}

#[test]
fn words_agree_with_split_whitespace() {
    for s in TEXTS {
        let expected: Vec<String> = s.split_whitespace().map(|x| x.to_string()).collect();
        assert_eq!(words(s), expected, "{s:?}");
    }
}

#[test]
fn same_text_compares_characters() {
    assert!(same_text("pub", "pub"));
    assert!(!same_text("pub", "pu"));
    assert!(!same_text("pub", "uid"));
    assert!(same_text("", ""));
}

#[test]
fn pad_left_agrees_with_format() {
    for s in ["", "1", "12", "123", "1234"] {
        assert_eq!(pad_left_text(s, 3), format!("{s:>3}"));
    }
}

#[test]
fn join_agrees_with_path_join() {
    let cases = [
        ("/a", "b"),
        ("/a/", "b"),
        ("", "b"),
        ("/a", "/b"),
        ("a", ""),
        ("a/b", "c/d"),
        ("/", "x"),
    ];
    for (base, part) in cases {
        let expected = std::path::Path::new(base).join(part);
        assert_eq!(join(base, part), expected.to_str().unwrap(), "{base:?} {part:?}");
    }
}
