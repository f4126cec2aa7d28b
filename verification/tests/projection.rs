use logfilter::logline::LogLine;
use logfilter::output::{join_fields, process_line, quoted_field, Config};

const LINE: &str =
    "127.0.0.1 - frank [10/Oct/2000:13:55:36 -0700] \"GET /apache_pb.gif HTTP/1.0\" 200 2326";

fn config(fields: &[&str], delimiter: &str, quote: &str) -> Config {
    Config {
        fields: fields.iter().map(|s| s.to_string()).collect(),
        delimiter: delimiter.to_string(),
        greps: vec![],
        invert_match: false,
        quote: quote.to_string(),
    }
}

#[test]
fn address_and_status_example() {
    let pl = LogLine::parse(LINE).unwrap();
    let c = config(&["address", "status"], "|", "");
    assert_eq!(join_fields(&c, &pl), "127.0.0.1|200");
}

#[test]
fn rendering_is_repeatable() {
    let pl = LogLine::parse(LINE).unwrap();
    let c = config(&["address", "request", "size"], ",", "'");
    let first = join_fields(&c, &pl);
    let second = join_fields(&c, &pl);
    assert_eq!(first, second);
    assert_eq!(first, "'127.0.0.1','GET /apache_pb.gif HTTP/1.0','2326'");
}

#[test]
fn no_fields_render_to_the_empty_string() {
    let pl = LogLine::parse(LINE).unwrap();
    let c = config(&[], "|", "");
    assert_eq!(join_fields(&c, &pl), "");
}

#[test]
fn repeated_fields_are_kept_in_order() {
    let pl = LogLine::parse(LINE).unwrap();
    let c = config(&["status", "status", "address"], " ", "");
    assert_eq!(join_fields(&c, &pl), "200 200 127.0.0.1");
}

#[test]
fn empty_trailer_fields_render_empty() {
    let pl = LogLine::parse(LINE).unwrap();
    let c = config(&["referer", "user_agent"], "|", "");
    assert_eq!(join_fields(&c, &pl), "|");
}

#[test]
fn quoted_field_wraps_both_sides() {
    let pl = LogLine::parse(LINE).unwrap();
    assert_eq!(quoted_field(&pl, "status", "\""), "\"200\"");
    assert_eq!(quoted_field(&pl, "status", ""), "200");
    assert_eq!(quoted_field(&pl, "user", "--"), "--frank--");
}

#[test]
fn process_line_renders_when_no_filters_are_set() {
    let pl = LogLine::parse(LINE).unwrap();
    let c = config(&["user", "size"], "|", "");
    assert_eq!(process_line(&c, &pl), Some("frank|2326".to_string()));
}
