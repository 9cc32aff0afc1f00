//! The library's laws, on concrete values.
use rust_dispatcher::parser::{parse_kafka_message, parse_port, parse_topics, ParsedKafkaMessage};

#[test]
fn a_kafka_message_is_its_id_a_space_and_its_text() {
    let input = "abc  two\nlines";
    let mut rest = input;
    let m = parse_kafka_message(&mut rest).unwrap();
    assert_eq!(m.database_id, "abc");
    assert_eq!(m.message, " two\nlines");
    assert_eq!(format!("{} {}", m.database_id, m.message), input);
    assert_eq!(rest, m.message);
    for bad in ["nospace", " leading", "id ", "bad-id text", "", " "] {
        let mut keep = bad;
        assert!(parse_kafka_message(&mut keep).is_err(), "{bad:?}");
        assert_eq!(keep, bad);
        let parsed: Result<ParsedKafkaMessage, String> = bad.parse();
        assert_eq!(parsed.unwrap_err(), "");
    }
}

#[test]
fn topic_lists_round_trip() {
    let lists: Vec<Vec<&str>> = vec![
        vec!["a"],
        vec!["a_topic", "b_topic", "3topic"],
        vec!["X", "_", "0", "long_name_42"],
    ];
    for list in lists {
        let joined = list.join(",");
        let mut input: &str = &joined;
        assert_eq!(parse_topics(&mut input).unwrap(), list);
        assert_eq!(input, joined.as_str());
    }
}

#[test]
fn ports_take_the_whole_valid_range() {
    let mut p = "65535";
    assert_eq!(parse_port(&mut p).unwrap(), "65535");
    let mut p = "0";
    assert_eq!(parse_port(&mut p).unwrap(), "0");
    let mut p = "65536";
    assert!(parse_port(&mut p).is_err());
    let mut p = "00080/tcp";
    assert_eq!(parse_port(&mut p).unwrap(), "00080");
    assert_eq!(p, "/tcp");
    let mut hp = "localhost:65535";
    assert_eq!(rust_dispatcher::parser::parse_hostname_and_port(&mut hp).unwrap(), "localhost:65535");
}
