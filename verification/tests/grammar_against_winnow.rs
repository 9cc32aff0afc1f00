//! The hand-written grammar checked against the same grammar written with
//! winnow's combinators, on many inputs.
use rust_dispatcher::parser::{
    parse_bool, parse_database_id, parse_f, parse_hostname, parse_hostname_and_port, parse_hostname_list,
    parse_hostname_set, parse_ip, parse_ip_double_octet, parse_ip_octet, parse_ip_quad,
    parse_ip_trip, parse_port, parse_t, parse_topics, test_timeout, topic_parser, ParseError,
};
use winnow::ascii::digit1;
use winnow::combinator::{alt, opt, separated, separated_pair};
use winnow::prelude::Parser;
use winnow::token::{take_until, take_while};
use winnow::Result as WinnowResult;

fn w_database_id<'s>(input: &mut &'s str) -> WinnowResult<&'s str> {
    take_until(0.., " ").parse_next(input)
}

fn w_hostname_set<'i>(input: &mut &'i str) -> WinnowResult<&'i str> {
    Parser::take(separated::<_, _, (), _, _, _, _>(.., w_hostname_and_port, ',')).parse_next(input)
}

fn w_hostname_list<'i>(input: &mut &'i str) -> WinnowResult<&'i str> {
    Parser::take(separated::<_, _, (), _, _, _, _>(
        1..,
        (w_hostname, opt((':', w_port))),
        ',',
    ))
    .parse_next(input)
}

fn w_hostname_and_port<'i>(input: &mut &'i str) -> WinnowResult<&'i str> {
    Parser::take(separated_pair(w_hostname, ':', w_port)).parse_next(input)
}

fn w_hostname<'i>(input: &mut &'i str) -> WinnowResult<&'i str> {
    Parser::take(alt((w_ip, "localhost"))).parse_next(input)
}

fn w_ip<'i>(input: &mut &'i str) -> WinnowResult<&'i str> {
    alt((w_ip_quad, w_ip_trip)).take().parse_next(input)
}

fn w_ip_quad<'i>(input: &mut &'i str) -> WinnowResult<&'i str> {
    Parser::take(separated::<_, _, (), _, _, _, _>(4, w_ip_octet, '.')).parse_next(input)
}

fn w_ip_trip<'i>(input: &mut &'i str) -> WinnowResult<&'i str> {
    Parser::take((w_ip_octet, '.', w_ip_octet, '.', w_ip_double_octet)).parse_next(input)
}

// The octet parser returns what is left of the input after the octet.
fn w_ip_octet<'i>(input: &mut &'i str) -> WinnowResult<&'i str> {
    digit1.parse_to::<u32>().verify(|i: &u32| *i <= 255).take().parse_next(input)?;
    Ok(*input)
}

fn w_ip_double_octet<'i>(input: &mut &'i str) -> WinnowResult<&'i str> {
    digit1.parse_to::<u32>().verify(|i: &u32| *i <= 65_535).take().parse_next(input)
}

// Ports take the whole valid range, 65535 included.
fn w_port<'i>(input: &mut &'i str) -> WinnowResult<&'i str> {
    digit1
        .parse_to::<u32>()
        .verify(|i: &u32| *i <= (<u32>::from(u16::MAX)))
        .take()
        .parse_next(input)
}

fn w_timeout<'i>(input: &mut &'i str) -> WinnowResult<&'i str> {
    digit1.parse_to::<u32>().take().parse_next(input)
}

fn w_topics<'i>(input: &'i str) -> Option<Vec<&'i str>> {
    separated(1.., w_topic, ',').parse(input).ok()
}

fn w_topic<'i>(input: &mut &'i str) -> WinnowResult<&'i str> {
    take_while(1.., ('_', '0'..='9', 'a'..='z', 'A'..='Z')).parse_next(input)
}

fn w_bool(input: &mut &str) -> Option<bool> {
    let t: WinnowResult<Option<char>> = opt(alt(('t', 'T'))).parse_next(input);
    if t.ok()?.is_some() {
        return Some(true);
    }
    let f: WinnowResult<Option<char>> = opt(alt(('f', 'F'))).parse_next(input);
    if f.ok()?.is_some() {
        return Some(false);
    }
    None
}

type Mine = for<'i> fn(&mut &'i str) -> Result<&'i str, ParseError>;
type Theirs = for<'i> fn(&mut &'i str) -> WinnowResult<&'i str>;

fn corpus() -> Vec<String> {
    let pieces = [
        "", "0", "1", "9", "00", "007", "255", "256", "65534", "65535", "65536", "4294967295",
        "4294967296", "99999999999", ".", ":", ",", " ", "localhost", "localhos", "Localhost",
        "a", "_", "Z", "é", "x1", "*",
    ];
    let mut out: Vec<String> = pieces.iter().map(|p| p.to_string()).collect();
    let seps = ["", ".", ":", ",", " "];
    for a in pieces.iter() {
        for s in seps.iter() {
            for b in pieces.iter().take(14) {
                out.push(format!("{a}{s}{b}"));
            }
        }
    }
    let fixed = [
        "192.168.0.4",
        "192.168.0.4:3030",
        "192.168.0.4:3030,localhost:8080,232.101.455:1234",
        "192.168.267",
        "1.2.3.4.5",
        "1.2.3.400:80",
        "1.2.3:80",
        "1.2.3.4:65535",
        "1.2.3.4:65534",
        "localhost:8080,",
        "localhost:8080,,localhost:1",
        "localhost:8080,abc",
        "localhost:8080,localhost",
        "localhost:8080:9090",
        "256.1.1.1:80",
        "1.1.1:70000",
        "a_topic,b_topic,3topic",
        "a_topic,*",
        ",a_topic",
        "a_topic,",
        "a,,b",
        "ünï,côdé",
        "True",
        "false",
        "tralala",
        "Fx",
        "w6xb3izpgvz4n0gow6q7 fn parse_something<'s>(input: &mut &str) ->",
        "  two spaces",
        "trailing ",
    ];
    out.extend(fixed.iter().map(|f| f.to_string()));
    out
}

fn same_prefix_parser(name: &str, mine: Mine, theirs: Theirs) {
    for s in corpus() {
        let mut a: &str = &s;
        let mut b: &str = &s;
        let ra = mine(&mut a);
        let rb = theirs(&mut b);
        match (ra, rb) {
            (Ok(x), Ok(y)) => {
                assert_eq!(x, y, "{name} on {s:?}");
                assert_eq!(a, b, "{name} on {s:?}: what is left");
            }
            (Err(_), Err(_)) => assert_eq!(a, s.as_str(), "{name} on {s:?}: input kept"),
            (ra, rb) => panic!("{name} on {s:?}: {ra:?} against {rb:?}"),
        }
    }
}

#[test]
fn octets_ports_and_timeouts_agree_with_winnow() {
    same_prefix_parser("octet", parse_ip_octet, w_ip_octet);
    same_prefix_parser("double octet", parse_ip_double_octet, w_ip_double_octet);
    same_prefix_parser("port", parse_port, w_port);
    same_prefix_parser("timeout", test_timeout, w_timeout);
}

#[test]
fn addresses_agree_with_winnow() {
    same_prefix_parser("quad", parse_ip_quad, w_ip_quad);
    same_prefix_parser("trip", parse_ip_trip, w_ip_trip);
    same_prefix_parser("ip", parse_ip, w_ip);
    same_prefix_parser("hostname", parse_hostname, w_hostname);
    same_prefix_parser("hostname and port", parse_hostname_and_port, w_hostname_and_port);
    same_prefix_parser("hostname set", parse_hostname_set, w_hostname_set);
    same_prefix_parser("hostname list", parse_hostname_list, w_hostname_list);
}

#[test]
fn topics_agree_with_winnow() {
    same_prefix_parser("topic", topic_parser, w_topic);
    for s in corpus() {
        let mut a: &str = &s;
        let mine = parse_topics(&mut a).ok();
        assert_eq!(mine, w_topics(&s), "topics on {s:?}");
        assert_eq!(a, s.as_str());
    }
}

#[test]
fn booleans_agree_with_winnow() {
    for s in corpus() {
        let mut a: &str = &s;
        let mut b: &str = &s;
        assert_eq!(parse_bool(&mut a).ok(), w_bool(&mut b), "bool on {s:?}");
        assert_eq!(a, b);
        let mut c: &str = &s;
        let t = parse_t(&mut c);
        assert_eq!(t.is_ok(), s.starts_with('t') || s.starts_with('T'));
        let mut d: &str = &s;
        let f = parse_f(&mut d);
        assert_eq!(f.is_ok(), s.starts_with('f') || s.starts_with('F'));
    }
}

#[test]
fn database_ids_agree_with_winnow() {
    same_prefix_parser("database id", parse_database_id, w_database_id);
}

#[test]
fn kafka_message_errors_read_as_winnow_describes_them() {
    let mut s = "no_space_here";
    let theirs = w_database_id(&mut s).unwrap_err().to_string();
    let mine: Result<rust_dispatcher::parser::ParsedKafkaMessage, String> = "no_space_here".parse();
    assert_eq!(mine.unwrap_err(), theirs);
}
