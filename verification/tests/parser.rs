use rust_dispatcher::parser::{
    parse_bool, parse_hostname, parse_hostname_and_port, parse_hostname_set, parse_ip,
    parse_port, parse_topics, test_timeout, ParsedKafkaMessage,
};

#[test]
fn parse_kafka_base_case() {
    let input_db_id = "w6xb3izpgvz4n0gow6q7";
    let input_code = "fn parse_something<'s>(input: &mut &str) ->";
    let input = format!("{input_db_id} {input_code}");
    let parsed: Result<ParsedKafkaMessage, String> = input.parse();
    assert!(parsed.is_ok_and(|x| x.database_id == "w6xb3izpgvz4n0gow6q7"));
}

#[test]
fn parsing_hostnames() {
    let mut local = "localhost";
    let local_parsed = parse_hostname(&mut local);
    assert!(local_parsed.is_ok());
    assert_eq!(local_parsed.unwrap(), "localhost");
    let mut simple_ip = "192.168.0.4";
    let simple_ip_parsed = parse_hostname(&mut simple_ip);
    assert!(simple_ip_parsed.is_ok());
    assert_eq!(simple_ip_parsed.unwrap(), "192.168.0.4");
    let mut local = "localhost:8080";
    let local_parsed = parse_hostname_and_port(&mut local);
    assert!(local_parsed.is_ok());
    assert_eq!(local_parsed.unwrap(), "localhost:8080");
    let mut simple_ip = "192.168.0.4:3030";
    let simple_ip_parsed = parse_hostname_and_port(&mut simple_ip);
    assert!(simple_ip_parsed.is_ok());
    assert_eq!(simple_ip_parsed.unwrap(), "192.168.0.4:3030");

    let mut super_simple_test = "192.168.0.4:3030,localhost:8080,232.101.455:1234";
    let super_simple_parsed = parse_hostname_set(&mut super_simple_test);
    assert!(super_simple_parsed.is_ok());
    assert_eq!(
        super_simple_parsed.unwrap(),
        "192.168.0.4:3030,localhost:8080,232.101.455:1234"
    );
}

#[test]
fn parse_ips() {
    let mut quad = "192.168.0.4";
    let quad_parsed = parse_ip(&mut quad);
    assert!(quad_parsed.is_ok());
    assert_eq!(quad_parsed.unwrap(), "192.168.0.4");
    let mut trip = "192.168.267";
    let trip_parsed = parse_ip(&mut trip);
    assert!(trip_parsed.is_ok());
    assert_eq!(trip_parsed.unwrap(), "192.168.267");
}

#[test]
fn parse_port_base_case() {
    let mut port_simple = "8080";
    assert!(parse_port(&mut port_simple).is_ok_and(|v| v == "8080"));
    let mut wrong_port = "abc";
    assert!(parse_port(&mut wrong_port).is_err());
}

#[test]
fn parse_timeout_base_case() {
    let mut timeout_simple = "60000";
    assert!(test_timeout(&mut timeout_simple).is_ok_and(|v| v == "60000"));
}

#[test]
fn parse_topics_base_case() {
    let mut topics_simple = "a_topic,b_topic,3topic";
    assert!(
        parse_topics(&mut topics_simple).is_ok_and(|v| v[..] == ["a_topic", "b_topic", "3topic"])
    );

    let mut wrong_topics = "a_topic,*";
    assert!(parse_topics(&mut wrong_topics).is_err());

    let mut pre_comma_topic = ",a_topic";
    assert!(parse_topics(&mut pre_comma_topic).is_err());

    let mut post_comma_topic = "a_topic,";
    assert!(parse_topics(&mut post_comma_topic).is_err());
}

#[test]
fn parse_bool_base_case() {
    let true_case: Vec<String> = vec![
        "True".to_string(),
        "t".to_string(),
        "T".to_string(),
        "true".to_string(),
    ];
    for case in true_case {
        assert!(parse_bool(&mut &case[..]).is_ok_and(|v| v));
    }
    let false_case: Vec<String> = vec![
        "False".to_string(),
        "f".to_string(),
        "F".to_string(),
        "false".to_string(),
    ];
    for case in false_case {
        assert!(parse_bool(&mut &case[..]).is_ok_and(|v| !v));
    }
}
