use lichess_trends::eco::{label_for_code, EcoRange};
use lichess_trends::pgn::{
    eco_group_from_headers, elo_bucket_with_size, is_game_start, month_from_headers, parse_elo,
    parse_headers, result_from_headers,
};

fn lines(v: &[&str]) -> Vec<String> {
    v.iter().map(|s| s.to_string()).collect()
}

#[test]
fn headers_are_read_from_tag_lines() {
    let h = parse_headers(&lines(&[
        "  [Event \"Rated Blitz\"]  ",
        "[White \"a b\"]",
        "not a tag",
        "[Broken]",
        "[NoQuote value]",
        "",
        "1. e4 e5",
        "[White \"c\"]",
    ]));
    assert_eq!(h.entries.len(), 3);
    assert_eq!(h.get("Event").unwrap(), "Rated Blitz");
    assert_eq!(h.get("White").unwrap(), "c");
    assert!(h.get("Broken").is_none());
    assert!(h.get("NoQuote").is_none());
}

#[test]
fn header_value_spans_first_to_last_quote() {
    let h = parse_headers(&lines(&["[Opening \"Sicilian \"Alapin\"\"]"]));
    assert_eq!(h.get("Opening").unwrap(), "Sicilian \"Alapin\"");
}

#[test]
fn game_start_marker() {
    assert!(is_game_start("[Event \"x\"]"));
    assert!(!is_game_start(" [Event \"x\"]"));
    assert!(!is_game_start("[EventDate \"x\"]"));
    assert!(!is_game_start("[Event"));
}

#[test]
fn month_prefers_utc_date() {
    let h = parse_headers(&lines(&["[Date \"2020.01.01\"]", "[UTCDate \"2021.02.03\"]"]));
    assert_eq!(month_from_headers(&h), "2021-02");
    let h = parse_headers(&lines(&["[Date \"2020.01.01\"]"]));
    assert_eq!(month_from_headers(&h), "2020-01");
}

#[test]
fn month_unknown_cases() {
    let none = parse_headers(&lines(&["[Event \"x\"]"]));
    assert_eq!(month_from_headers(&none), "unknown");
    let dashes = parse_headers(&lines(&["[Date \"2024-03-15\"]"]));
    assert_eq!(month_from_headers(&dashes), "unknown");
    let marks = parse_headers(&lines(&["[Date \"????.??.??\"]"]));
    assert_eq!(month_from_headers(&marks), "unknown");
    let bad_day = parse_headers(&lines(&["[Date \"2024.03.xx\"]"]));
    assert_eq!(month_from_headers(&bad_day), "unknown");
    let long = parse_headers(&lines(&["[Date \"2024.03.151\"]"]));
    assert_eq!(month_from_headers(&long), "unknown");
    let short_day = parse_headers(&lines(&["[Date \"2024.03.1\"]"]));
    assert_eq!(month_from_headers(&short_day), "unknown");
    let short = parse_headers(&lines(&["[Date \"2024.03\"]"]));
    assert_eq!(month_from_headers(&short), "unknown");
    let bad_utc = parse_headers(&lines(&["[UTCDate \"x\"]", "[Date \"2024.03.15\"]"]));
    assert_eq!(month_from_headers(&bad_utc), "unknown");
}

#[test]
fn result_and_eco_defaults() {
    let h = parse_headers(&lines(&["[Event \"x\"]"]));
    assert_eq!(result_from_headers(&h), "*");
    assert_eq!(eco_group_from_headers(&h), "U00");
    let h = parse_headers(&lines(&["[Result \"1/2-1/2\"]", "[ECO \"B45\"]"]));
    assert_eq!(result_from_headers(&h), "1/2-1/2");
    assert_eq!(eco_group_from_headers(&h), "B20-B99");
}

#[test]
fn elo_parsing() {
    let s = |v: &str| v.to_string();
    assert_eq!(parse_elo(Some(&s("2250"))), Some(2250));
    assert_eq!(parse_elo(Some(&s("+15"))), Some(15));
    assert_eq!(parse_elo(Some(&s("007"))), Some(7));
    assert_eq!(parse_elo(Some(&s("65535"))), Some(65535));
    assert_eq!(parse_elo(Some(&s("65536"))), None);
    assert_eq!(parse_elo(Some(&s("?"))), None);
    assert_eq!(parse_elo(Some(&s(""))), None);
    assert_eq!(parse_elo(Some(&s("-1"))), None);
    assert_eq!(parse_elo(Some(&s(" 1500"))), None);
    assert_eq!(parse_elo(None), None);
}

#[test]
fn bucketing() {
    assert_eq!(elo_bucket_with_size(Some(2250), 100), 2200);
    assert_eq!(elo_bucket_with_size(Some(2105), 100), 2100);
    assert_eq!(elo_bucket_with_size(Some(2250), 200), 2200);
    assert_eq!(elo_bucket_with_size(Some(1999), 200), 1800);
    assert_eq!(elo_bucket_with_size(Some(199), 200), 0);
    assert_eq!(elo_bucket_with_size(Some(65535), 1000), 65000);
    assert_eq!(elo_bucket_with_size(None, 200), 0);
    assert_eq!(elo_bucket_with_size(Some(2250), 0), 0);
}

#[test]
fn rebucketing_is_idempotent() {
    for (r, s) in [(2250u16, 100u16), (1999, 200), (7, 3), (65535, 7), (0, 1), (1234, 1234)] {
        let b = elo_bucket_with_size(Some(r), s);
        assert_eq!(elo_bucket_with_size(Some(b), s), b);
    }
}

#[test]
fn eco_ranges_and_boundaries() {
    assert_eq!(label_for_code("B19"), "B10-B19");
    assert_eq!(label_for_code("B20"), "B20-B99");
    assert_eq!(label_for_code("B99"), "B20-B99");
    assert_eq!(label_for_code("C00"), "C00-C19");
    assert_eq!(label_for_code("A00"), "A00");
    assert_eq!(label_for_code("A47"), "A47");
    assert_eq!(label_for_code("A48"), "A48-A49");
    assert_eq!(label_for_code("D42"), "D30-D42");
    assert_eq!(label_for_code("D43"), "D43-D49");
    assert_eq!(label_for_code("E99"), "E60-E99");
    assert_eq!(label_for_code(" e01 "), "E01-E09");
}

#[test]
fn eco_malformed_codes() {
    for bad in ["", "B2", "B200", "F00", "Z99", "1B2", "B-1", "BB0", "é00", "U00"] {
        assert_eq!(label_for_code(bad), "U00", "{}", bad);
    }
}

#[test]
fn eco_range_label() {
    assert_eq!(EcoRange { start: 120, end: 199 }.label(), "B20-B99");
    assert_eq!(EcoRange { start: 47, end: 47 }.label(), "A47");
    assert_eq!(EcoRange { start: 402, end: 499 }.label(), "E02-E99");
}
