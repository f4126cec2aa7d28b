use logfilter::logline::LogLine;
use logfilter::AppError;

const FULL_LINE: &str = "127.0.0.1 - frank [10/Oct/2000:13:55:36 -0700] \"GET /apache_pb.gif HTTP/1.0\" 200 2326 \"-\" \"Mozilla/5.0\"";

const MANDATORY_LINE: &str =
    "127.0.0.1 - frank [10/Oct/2000:13:55:36 -0700] \"GET /apache_pb.gif HTTP/1.0\" 200 2326";

#[test]
fn parse_full_line_captures_all_nine_fields() {
    let pl = LogLine::parse(FULL_LINE).unwrap();
    assert_eq!(pl.ip_address, "127.0.0.1");
    assert_eq!(pl.identity, "-");
    assert_eq!(pl.user, "frank");
    assert_eq!(pl.timestamp, "10/Oct/2000:13:55:36 -0700");
    assert_eq!(pl.request_line, "GET /apache_pb.gif HTTP/1.0");
    assert_eq!(pl.status_code, "200");
    assert_eq!(pl.size, "2326");
    assert_eq!(pl.referer, "-");
    assert_eq!(pl.user_agent, "Mozilla/5.0");
}

#[test]
fn parse_mandatory_only_leaves_trailers_empty() {
    let pl = LogLine::parse(MANDATORY_LINE).unwrap();
    assert_eq!(pl.ip_address, "127.0.0.1");
    assert_eq!(pl.size, "2326");
    assert_eq!(pl.referer, "");
    assert_eq!(pl.user_agent, "");
}

#[test]
fn parse_referer_without_user_agent() {
    let line = "10.0.0.1 - - [01/Jan/2020:00:00:00 +0000] \"GET / HTTP/1.1\" 304 0 \"http://example.com/\"";
    let pl = LogLine::parse(line).unwrap();
    assert_eq!(pl.referer, "http://example.com/");
    assert_eq!(pl.user_agent, "");
}

#[test]
fn parse_missing_closing_bracket_fails() {
    let line = "127.0.0.1 - frank [10/Oct/2000:13:55:36 \"GET / HTTP/1.0\" 200 2326";
    assert!(matches!(LogLine::parse(line), Err(AppError::Parse(_))));
}

#[test]
fn parse_unbalanced_quote_fails() {
    let line = "127.0.0.1 - frank [10/Oct/2000:13:55:36 -0700] \"GET / HTTP/1.0 200 2326";
    assert!(matches!(LogLine::parse(line), Err(AppError::Parse(_))));
}

#[test]
fn parse_trailing_content_fails() {
    let line = "127.0.0.1 - frank [10/Oct/2000:13:55:36 -0700] \"GET / HTTP/1.0\" 200 2326 \"-\" \"UA\" extra";
    assert!(matches!(LogLine::parse(line), Err(AppError::Parse(_))));
}

#[test]
fn parse_empty_line_fails() {
    assert!(LogLine::parse("").is_err());
    assert!(LogLine::parse("   ").is_err());
}

#[test]
fn parse_too_few_tokens_fails() {
    assert!(LogLine::parse("127.0.0.1 - frank").is_err());
    assert!(LogLine::parse("127.0.0.1 - frank [ts] \"req\"").is_err());
}

#[test]
fn parse_empty_quoted_trailer_fails() {
    let line = "127.0.0.1 - frank [10/Oct/2000:13:55:36 -0700] \"GET / HTTP/1.0\" 200 2326 \"\"";
    assert!(LogLine::parse(line).is_err());
}

#[test]
fn get_field_returns_each_field() {
    let pl = LogLine::parse(FULL_LINE).unwrap();
    assert_eq!(pl.get_field("address"), "127.0.0.1");
    assert_eq!(pl.get_field("identity"), "-");
    assert_eq!(pl.get_field("user"), "frank");
    assert_eq!(pl.get_field("timestamp"), "10/Oct/2000:13:55:36 -0700");
    assert_eq!(pl.get_field("request"), "GET /apache_pb.gif HTTP/1.0");
    assert_eq!(pl.get_field("status"), "200");
    assert_eq!(pl.get_field("size"), "2326");
    assert_eq!(pl.get_field("referer"), "-");
    assert_eq!(pl.get_field("user_agent"), "Mozilla/5.0");
}

#[test]
fn is_valid_field_accepts_exactly_the_nine_names() {
    for name in [
        "address",
        "identity",
        "user",
        "timestamp",
        "request",
        "status",
        "size",
        "referer",
        "user_agent",
    ] {
        assert!(logfilter::logline::is_valid_field(name));
    }
    assert!(!logfilter::logline::is_valid_field(""));
    assert!(!logfilter::logline::is_valid_field("Address"));
    assert!(!logfilter::logline::is_valid_field("useragent"));
}
