use logfilter::grep::Grep;
use logfilter::logline::LogLine;
use logfilter::output::{passes, process_line, Config};
use logfilter::AppError;

const LINE: &str = "127.0.0.1 - frank [10/Oct/2000:13:55:36 -0700] \"GET /apache_pb.gif HTTP/1.0\" 200 2326 \"-\" \"Mozilla/5.0\"";

fn all_fields() -> Vec<String> {
    [
        "address",
        "identity",
        "user",
        "timestamp",
        "request",
        "status",
        "size",
        "referer",
        "user_agent",
    ]
    .iter()
    .map(|s| s.to_string())
    .collect()
}

fn config(greps: Vec<Grep>, invert: bool) -> Config {
    Config {
        fields: all_fields(),
        delimiter: "|".to_string(),
        greps,
        invert_match: invert,
        quote: String::new(),
    }
}

#[test]
fn grep_parse_without_colon_is_a_parse_error() {
    assert!(matches!(Grep::parse("nocolon"), Err(AppError::Parse(_))));
    assert!(matches!(Grep::parse(""), Err(AppError::Parse(_))));
}

#[test]
fn grep_parse_bad_pattern_is_a_regex_error() {
    assert!(matches!(Grep::parse("status:^("), Err(AppError::Regex(_))));
}

#[test]
fn grep_parse_unknown_field_is_rejected_eagerly() {
    assert!(matches!(
        Grep::parse("bogus:x"),
        Err(AppError::UnknownField(f)) if f == "bogus"
    ));
    // The empty field half is not a recognized name either.
    assert!(matches!(Grep::parse(":x"), Err(AppError::UnknownField(_))));
}

#[test]
fn grep_parse_splits_at_the_first_colon() {
    let g = Grep::parse("timestamp:13:55").unwrap();
    assert_eq!(g.field, "timestamp");
    assert_eq!(g.pattern.as_str(), "13:55");
    let pl = LogLine::parse(LINE).unwrap();
    assert!(g.matches(&pl));
}

#[test]
fn grep_matches_searches_within_the_field() {
    let pl = LogLine::parse(LINE).unwrap();
    assert!(Grep::parse("request:GET").unwrap().matches(&pl));
    assert!(Grep::parse("request:apache_pb").unwrap().matches(&pl));
    assert!(!Grep::parse("address:GET").unwrap().matches(&pl));
    assert!(Grep::parse("user_agent:Mozilla").unwrap().matches(&pl));
    assert!(!Grep::parse("user:bob").unwrap().matches(&pl));
}

#[test]
fn empty_filter_set_passes_every_line() {
    let pl = LogLine::parse(LINE).unwrap();
    assert!(passes(&config(vec![], false), &pl));
    // The invert flag changes nothing when no filter is configured.
    assert!(passes(&config(vec![], true), &pl));
}

#[test]
fn status_filter_example() {
    let pl = LogLine::parse(LINE).unwrap();
    let pass = config(vec![Grep::parse("status:^2").unwrap()], false);
    assert!(process_line(&pass, &pl).is_some());
    let fail = config(vec![Grep::parse("status:^4").unwrap()], false);
    assert!(process_line(&fail, &pl).is_none());
}

#[test]
fn invert_negates_a_nonempty_filter_set() {
    let pl = LogLine::parse(LINE).unwrap();
    for pattern in ["status:^2", "status:^4", "user:frank", "user:bob"] {
        let plain = passes(&config(vec![Grep::parse(pattern).unwrap()], false), &pl);
        let inverted = passes(&config(vec![Grep::parse(pattern).unwrap()], true), &pl);
        assert_eq!(plain, !inverted);
    }
}

#[test]
fn filters_are_combined_with_and() {
    let pl = LogLine::parse(LINE).unwrap();
    let both = config(
        vec![
            Grep::parse("status:^2").unwrap(),
            Grep::parse("user:frank").unwrap(),
        ],
        false,
    );
    assert!(passes(&both, &pl));
    let one_fails = config(
        vec![
            Grep::parse("status:^2").unwrap(),
            Grep::parse("user:bob").unwrap(),
        ],
        false,
    );
    assert!(!passes(&one_fails, &pl));
}
