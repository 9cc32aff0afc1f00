//! Parsing of what the dispatcher receives from outside: the messages that
//! come from Kafka, and the values of its environment variables.
use vstd::prelude::*;
use crate::syntax::{
    char_at, double_octet_end, host_entries_at, host_entries_end, host_list_at, host_list_end, hostname_and_port_at,
    hostname_and_port_end, hostname_at, hostname_end, ip_at, ip_end, ip_quad_at, ip_quad_end,
    ip_trip_at, ip_trip_end, is_topic, is_topic_char, is_topic_list, join_commas,
    lemma_join_injective, lemma_join_is_topic_list, number_at, octet_end, port_end, pos, timeout_end, topic_char, u32_max,
};
use crate::addresses::{
    entries_text, entry_in_range, lemma_host_lists_are_read_whole, lemma_timeouts_fit_a_u32,
    numeral,
};
use crate::text::chars_of;
use vstd::string::StringExecFns;

pub use self::SetupVariableError as SVErr;

verus! {

broadcast use vstd::string::group_string_axioms;

/// A value that does not match the grammar that a parser expects.
#[derive(Debug, Clone, Copy, PartialEq, Eq, Structural)]
pub struct ParseError;

/// What a parser of a prefix leaves: when `m` is the end of its match in
/// `before` (which lies within `before`), it returns the matched text and
/// leaves the rest; when there is no match, it fails and leaves the input as
/// it was.
pub open spec fn takes_prefix(
    before: Seq<char>,
    after: Seq<char>,
    r: Result<&str, ParseError>,
    m: Option<int>,
) -> bool {
    match m {
        Some(e) => {
            &&& 0 <= e <= before.len()
            &&& r matches Ok(t) && t@ == before.take(e) && after == before.skip(e)
        },
        None => r is Err && after == before,
    }
}

/// Split `input` after its first `n` characters: return those and leave the rest.
fn advance<'i>(input: &mut &'i str, n: usize) -> (taken: &'i str)
    requires
        n <= old(input)@.len(),
    ensures
        taken@ == old(input)@.take(n as int),
        final(input)@ == old(input)@.skip(n as int),
{
    let s: &'i str = *input;
    let len = s.unicode_len();
    let taken = s.substring_char(0, n);
    *input = s.substring_char(n, len);
    taken
}

/// Run a recogniser's answer over `input`: take the match or fail.
fn take_match<'i>(input: &mut &'i str, cs: &Vec<char>, m: Option<usize>) -> (r: Result<
    &'i str,
    ParseError,
>)
    requires
        cs@ == old(input)@,
        m matches Some(e) ==> e <= cs.len(),
    ensures
        takes_prefix(old(input)@, final(input)@, r, pos(m)),
{
    match m {
        Some(e) => Ok(advance(input, e)),
        None => Err(ParseError),
    }
}

/// Zero or more `host:port` entries separated by commas, such as
/// `192.168.0.4:3030,localhost:8080`. This never fails: it returns the
/// longest run of entries at the start of the input, possibly empty.
pub fn parse_hostname_set<'i>(hostname: &mut &'i str) -> (r: Result<&'i str, ParseError>)
    ensures
        takes_prefix(old(hostname)@, final(hostname)@, r, Some(host_list_end(old(hostname)@, 0))),
{
    let cs = chars_of(*hostname);
    let e = host_list_at(&cs, 0);
    take_match(hostname, &cs, Some(e))
}

/// One or more hosts separated by commas, each with an optional `:port`,
/// such as `localhost,192.168.0.4:8000`; the longest such run at the start
/// of the input.
pub fn parse_hostname_list<'i>(input: &mut &'i str) -> (r: Result<&'i str, ParseError>)
    ensures
        takes_prefix(old(input)@, final(input)@, r, host_entries_end(old(input)@, 0)),
{
    let cs = chars_of(*input);
    let m = host_entries_at(&cs, 0);
    take_match(input, &cs, m)
}

/// A host followed by a colon and a port, such as `localhost:8080`.
pub fn parse_hostname_and_port<'i>(input: &mut &'i str) -> (r: Result<&'i str, ParseError>)
    ensures
        takes_prefix(old(input)@, final(input)@, r, hostname_and_port_end(old(input)@, 0)),
{
    let cs = chars_of(*input);
    let m = hostname_and_port_at(&cs, 0);
    take_match(input, &cs, m)
}

/// A host: an IPv4 address (see [`parse_ip`]) or the word `localhost`.
pub fn parse_hostname<'i>(hostname: &mut &'i str) -> (r: Result<&'i str, ParseError>)
    ensures
        takes_prefix(old(hostname)@, final(hostname)@, r, hostname_end(old(hostname)@, 0)),
{
    let cs = chars_of(*hostname);
    let m = hostname_at(&cs, 0);
    take_match(hostname, &cs, m)
}

/// An IPv4 address: four octets separated by dots where they match, such as
/// `192.168.0.4`; else two octets and a number of at most 65535, such as
/// `192.168.267`.
pub fn parse_ip<'i>(input: &mut &'i str) -> (r: Result<&'i str, ParseError>)
    ensures
        takes_prefix(old(input)@, final(input)@, r, ip_end(old(input)@, 0)),
{
    let cs = chars_of(*input);
    let m = ip_at(&cs, 0);
    take_match(input, &cs, m)
}

/// Four octets separated by dots.
pub fn parse_ip_quad<'i>(input: &mut &'i str) -> (r: Result<&'i str, ParseError>)
    ensures
        takes_prefix(old(input)@, final(input)@, r, ip_quad_end(old(input)@, 0)),
{
    let cs = chars_of(*input);
    let m = ip_quad_at(&cs, 0);
    take_match(input, &cs, m)
}

/// Two octets and a number of at most 65535, separated by dots.
pub fn parse_ip_trip<'i>(input: &mut &'i str) -> (r: Result<&'i str, ParseError>)
    ensures
        takes_prefix(old(input)@, final(input)@, r, ip_trip_end(old(input)@, 0)),
{
    let cs = chars_of(*input);
    let m = ip_trip_at(&cs, 0);
    take_match(input, &cs, m)
}

/// An octet: decimal digits whose value is at most 255. The input is
/// advanced past it, and what is returned is the text left after it.
pub fn parse_ip_octet<'i>(input: &mut &'i str) -> (r: Result<&'i str, ParseError>)
    ensures
        ({
            let s = old(input)@;
            match octet_end(s, 0) {
                Some(e) => r matches Ok(rest) && rest@ == s.skip(e) && final(input)@ == s.skip(e),
                None => r is Err && final(input)@ == s,
            }
        }),
{
    let cs = chars_of(*input);
    let m = number_at(&cs, 0, 255);
    take_match(input, &cs, m)?;
    Ok(*input)
}

/// Decimal digits whose value is at most 65535.
pub fn parse_ip_double_octet<'i>(input: &mut &'i str) -> (r: Result<&'i str, ParseError>)
    ensures
        takes_prefix(old(input)@, final(input)@, r, double_octet_end(old(input)@, 0)),
{
    let cs = chars_of(*input);
    let m = number_at(&cs, 0, 65535);
    take_match(input, &cs, m)
}

/// A port: decimal digits whose value is in the valid port range, at most
/// 65535.
pub fn parse_port<'i>(input: &mut &'i str) -> (r: Result<&'i str, ParseError>)
    ensures
        takes_prefix(old(input)@, final(input)@, r, port_end(old(input)@, 0)),
{
    let cs = chars_of(*input);
    let m = number_at(&cs, 0, 65535);
    take_match(input, &cs, m)
}

/// A timeout: decimal digits whose value fits in a `u32`.
pub fn test_timeout<'i>(input: &mut &'i str) -> (r: Result<&'i str, ParseError>)
    ensures
        takes_prefix(old(input)@, final(input)@, r, timeout_end(old(input)@, 0)),
{
    let cs = chars_of(*input);
    let m = number_at(&cs, 0, 0xffff_ffff);
    take_match(input, &cs, m)
}

/// The end of the run of topic characters that starts at `i`.
pub open spec fn topic_run_end(s: Seq<char>, i: int) -> int
    decreases s.len() - i,
{
    if 0 <= i < s.len() && topic_char(s[i]) {
        topic_run_end(s, i + 1)
    } else {
        i
    }
}

/// A topic name: one or more of `_`, ASCII digits and ASCII letters, as
/// many as follow.
pub fn topic_parser<'i>(input: &mut &'i str) -> (r: Result<&'i str, ParseError>)
    ensures
        takes_prefix(
            old(input)@,
            final(input)@,
            r,
            if topic_run_end(old(input)@, 0) > 0 {
                Some(topic_run_end(old(input)@, 0))
            } else {
                None
            },
        ),
{
    let cs = chars_of(*input);
    let ghost s = cs@;
    let mut j: usize = 0;
    while j < cs.len() && is_topic_char(cs[j])
        invariant
            s == cs@,
            j <= cs.len(),
            topic_run_end(s, 0) == topic_run_end(s, j as int),
        decreases cs.len() - j,
    {
        j = j + 1;
    }
    take_match(input, &cs, if j > 0 { Some(j) } else { None })
}

/// The texts of a list of string slices.
pub open spec fn texts(v: Seq<&str>) -> Seq<Seq<char>> {
    v.map_values(|t: &str| t@)
}

/// A list of topic names separated by commas, such as `a_topic,b_topic`: the
/// whole input must be such a list, with no comma first, last or doubled.
/// The input is left as it was.
pub fn parse_topics<'i>(input: &mut &'i str) -> (r: Result<Vec<&'i str>, ParseError>)
    ensures
        *final(input) == *old(input),
        r is Ok <==> is_topic_list(old(input)@),
        r matches Ok(v) ==> {
            &&& v.len() > 0
            &&& forall|k: int| 0 <= k < v.len() ==> is_topic(#[trigger] v@[k]@)
            &&& join_commas(texts(v@)) == old(input)@
        },
{
    let s: &'i str = *input;
    let cs = chars_of(s);
    let ghost g = cs@;
    let n = cs.len();
    let mut out: Vec<&'i str> = Vec::new();
    let mut start: usize = 0;
    let mut j: usize = 0;
    while j < n
        invariant
            g == cs@,
            g == s@,
            s == *old(input),
            s == *input,
            n == cs.len(),
            start <= j <= n,
            forall|k: int| start <= k < j ==> topic_char(#[trigger] g[k]),
            forall|k: int| 0 <= k < out.len() ==> is_topic(#[trigger] out@[k]@),
            out.len() == 0 ==> start == 0,
            out.len() > 0 ==> {
                &&& start >= 1
                &&& g[start - 1] == ','
                &&& join_commas(texts(out@)) == g.take(start - 1)
            },
        decreases n - j,
    {
        let c = cs[j];
        if c == ',' {
            if j == start {
                proof {
                    assert(g[j as int] == ',');
                    if start > 0 {
                        assert(crate::syntax::double_comma_at(g, start - 1));
                    }
                    assert(!is_topic_list(g));
                }
                return Err(ParseError);
            }
            let word = s.substring_char(start, j);
            proof {
                assert forall|k: int| 0 <= k < word@.len() implies topic_char(#[trigger] word@[k]) by {
                    assert(word@[k] == g[start + k]);
                }
                let old_out = texts(out@);
                let new_out = texts(out@.push(word));
                assert(new_out =~= old_out.push(word@));
                if out.len() == 0 {
                    assert(join_commas(new_out) == new_out[0]);
                    assert(word@ =~= g.take(j as int));
                } else {
                    assert(new_out.drop_last() =~= old_out);
                    assert(join_commas(new_out) == join_commas(old_out) + seq![','] + word@);
                    assert(join_commas(new_out) =~= g.take(j as int));
                }
            }
            out.push(word);
            start = j + 1;
        } else if !is_topic_char(c) {
            proof {
                assert(!(topic_char(g[j as int]) || g[j as int] == ','));
                assert(!is_topic_list(g));
            }
            return Err(ParseError);
        }
        j = j + 1;
    }
    if start == n {
        proof {
            if n > 0 {
                assert(g.last() == ',');
            }
            assert(!is_topic_list(g));
        }
        return Err(ParseError);
    }
    let word = s.substring_char(start, n);
    proof {
        assert forall|k: int| 0 <= k < word@.len() implies topic_char(#[trigger] word@[k]) by {
            assert(word@[k] == g[start + k]);
        }
        let old_out = texts(out@);
        let new_out = texts(out@.push(word));
        assert(new_out =~= old_out.push(word@));
        if out.len() == 0 {
            assert(join_commas(new_out) == new_out[0]);
            assert(word@ =~= g);
        } else {
            assert(new_out.drop_last() =~= old_out);
            assert(join_commas(new_out) =~= g);
        }
    }
    out.push(word);
    proof {
        let ws = texts(out@);
        assert forall|k: int| 0 <= k < ws.len() implies is_topic(#[trigger] ws[k]) by {
            assert(ws[k] == out@[k]@);
        }
        lemma_join_is_topic_list(ws);
    }
    Ok(out)
}

/// What a parser of one leading character in `accepted` leaves: the
/// character, with the input advanced past it; or a failure that leaves the
/// input as it was.
pub open spec fn takes_char(
    before: Seq<char>,
    after: Seq<char>,
    r: Result<char, ParseError>,
    accepted: Set<char>,
) -> bool {
    if before.len() > 0 && accepted.contains(before[0]) {
        r == Ok::<char, ParseError>(before[0]) && after == before.skip(1)
    } else {
        r is Err && after == before
    }
}

/// One leading character of `input` that is `a` or `b`.
fn one_of<'i>(input: &mut &'i str, a: char, b: char) -> (r: Result<char, ParseError>)
    ensures
        takes_char(old(input)@, final(input)@, r, set![a, b]),
{
    let cs = chars_of(*input);
    if cs.len() > 0 && (cs[0] == a || cs[0] == b) {
        let c = cs[0];
        advance(input, 1);
        Ok(c)
    } else {
        Err(ParseError)
    }
}

/// A parser of a prefix loses nothing: what it returns, followed by what it
/// leaves, is its input.
pub proof fn lemma_taken_then_left_is_input(
    before: Seq<char>,
    after: Seq<char>,
    r: Result<&str, ParseError>,
    m: Option<int>,
)
    requires
        takes_prefix(before, after, r, m),
    ensures
        r matches Ok(t) ==> t@ + after == before,
{
    if let Some(e) = m {
        assert(before.take(e) + before.skip(e) =~= before);
    }
}

/// Topic lists round-trip: any non-empty list of topic names, joined by
/// commas, is accepted by [`parse_topics`], and the only list that it can
/// answer for that text is the list itself.
pub proof fn lemma_topics_round_trip(ws: Seq<Seq<char>>, answer: Seq<Seq<char>>)
    requires
        ws.len() > 0,
        forall|k: int| 0 <= k < ws.len() ==> is_topic(#[trigger] ws[k]),
        answer.len() > 0,
        forall|k: int| 0 <= k < answer.len() ==> is_topic(#[trigger] answer[k]),
        join_commas(answer) == join_commas(ws),
    ensures
        is_topic_list(join_commas(ws)),
        answer == ws,
{
    lemma_join_is_topic_list(ws);
    lemma_join_injective(answer, ws);
}

/// A leading `t` or `T`.
pub fn parse_t(input: &mut &str) -> (r: Result<char, ParseError>)
    ensures
        takes_char(old(input)@, final(input)@, r, set!['t', 'T']),
{
    one_of(input, 't', 'T')
}

/// A leading `f` or `F`.
pub fn parse_f(input: &mut &str) -> (r: Result<char, ParseError>)
    ensures
        takes_char(old(input)@, final(input)@, r, set!['f', 'F']),
{
    one_of(input, 'f', 'F')
}

/// A boolean, read from its first letter alone: `t` or `T` is true, `f` or
/// `F` is false (so `True`, `true`, `False` and `false` all read as
/// expected). The letter is consumed; anything else fails and consumes
/// nothing.
pub fn parse_bool(input: &mut &str) -> (r: Result<bool, ParseError>)
    ensures
        ({
            let s = old(input)@;
            if s.len() > 0 && (s[0] == 't' || s[0] == 'T') {
                r == Ok::<bool, ParseError>(true) && final(input)@ == s.skip(1)
            } else if s.len() > 0 && (s[0] == 'f' || s[0] == 'F') {
                r == Ok::<bool, ParseError>(false) && final(input)@ == s.skip(1)
            } else {
                r is Err && final(input)@ == s
            }
        }),
{
    if parse_t(input).is_ok() {
        return Ok(true);
    }
    if parse_f(input).is_ok() {
        return Ok(false);
    }
    Err(ParseError)
}

/// A Kafka message split into the id of the database record it is for (its
/// first word) and the text that follows the space after it.
#[derive(Debug)]
pub struct ParsedKafkaMessage {
    pub database_id: String,
    pub message: String,
}

/// The text before the first space of `input`; the input is left at that
/// space. Fails, leaving the input as it was, when there is no space.
pub fn parse_database_id<'s>(input: &mut &'s str) -> (r: Result<&'s str, ParseError>)
    ensures
        ({
            let s = old(input)@;
            match r {
                Ok(id) => {
                    &&& id@.len() < s.len()
                    &&& s[id@.len() as int] == ' '
                    &&& !id@.contains(' ')
                    &&& id@ == s.take(id@.len() as int)
                    &&& final(input)@ == s.skip(id@.len() as int)
                },
                Err(_) => !s.contains(' ') && final(input)@ == s,
            }
        }),
{
    let cs = chars_of(*input);
    let ghost g = cs@;
    let mut j: usize = 0;
    while j < cs.len() && cs[j] != ' '
        invariant
            g == cs@,
            j <= cs.len(),
            forall|k: int| 0 <= k < j ==> g[k] != ' ',
        decreases cs.len() - j,
    {
        j = j + 1;
    }
    if j == cs.len() {
        proof {
            assert forall|k: int| 0 <= k < g.len() implies g[k] != ' ' by {}
        }
        return Err(ParseError);
    }
    let id = advance(input, j);
    proof {
        assert forall|k: int| 0 <= k < id@.len() implies id@[k] != ' ' by {
            assert(id@[k] == g[k]);
        }
    }
    Ok(id)
}

/// `s` is a Kafka message for record `id` with text `text`: the id is a
/// word (one or more of `_`, ASCII digits and ASCII letters), then one
/// space, then the text, which is not empty.
pub open spec fn is_kafka_message(s: Seq<char>, id: Seq<char>, text: Seq<char>) -> bool {
    &&& is_topic(id)
    &&& text.len() > 0
    &&& s == id + seq![' '] + text
}

/// `s` has the shape of a Kafka message.
pub open spec fn well_formed_message(s: Seq<char>) -> bool {
    exists|id: Seq<char>, text: Seq<char>| is_kafka_message(s, id, text)
}

/// In a Kafka message, the id ends at the first space.
proof fn lemma_id_ends_at_first_space(s: Seq<char>, j: int, id: Seq<char>, text: Seq<char>)
    requires
        0 <= j <= s.len(),
        forall|k: int| 0 <= k < j ==> s[k] != ' ',
        j < s.len() ==> s[j] == ' ',
        is_kafka_message(s, id, text),
    ensures
        id.len() == j,
        j < s.len(),
{
    let n = id.len() as int;
    assert(s[n] == ' ');
    if n < j {
    } else if n > j {
        assert(s[j] == id[j]);
        assert(topic_char(id[j]));
    }
}

/// Every word followed by a space and a non-empty text is a Kafka message,
/// and it splits in one way only: into that word and that text.
pub proof fn lemma_kafka_messages_split_at_their_word(id: Seq<char>, text: Seq<char>)
    requires
        is_topic(id),
        text.len() > 0,
    ensures
        well_formed_message(id + seq![' '] + text),
        forall|id2: Seq<char>, text2: Seq<char>|
            is_kafka_message(id + seq![' '] + text, id2, text2) ==> id2 == id && text2 == text,
{
    let s = id + seq![' '] + text;
    assert(is_kafka_message(s, id, text));
    let j = id.len() as int;
    assert forall|k: int| 0 <= k < j implies s[k] != ' ' by {
        assert(s[k] == id[k]);
        assert(topic_char(id[k]));
    }
    assert(s[j] == ' ');
    assert forall|id2: Seq<char>, text2: Seq<char>|
        is_kafka_message(s, id2, text2) implies id2 == id && text2 == text by {
        lemma_id_ends_at_first_space(s, j, id2, text2);
        assert(id2 =~= s.subrange(0, j));
        assert(id =~= s.subrange(0, j));
        assert(text2 =~= s.subrange(j + 1, s.len() as int));
        assert(text =~= s.subrange(j + 1, s.len() as int));
    }
}

/// Split a Kafka message into the id of its database record (the word
/// before the first space) and its text (everything after that space). The
/// input is left at the text. A message without that shape fails and leaves
/// the input as it was.
pub fn parse_kafka_message(input: &mut &str) -> (r: Result<ParsedKafkaMessage, ParseError>)
    ensures
        ({
            let s = old(input)@;
            match r {
                Ok(m) => is_kafka_message(s, m.database_id@, m.message@) && final(input)@
                    == m.message@,
                Err(_) => !well_formed_message(s) && final(input)@ == s,
            }
        }),
{
    let s: &str = *input;
    let cs = chars_of(s);
    let ghost g = cs@;
    let n = cs.len();
    let mut j: usize = 0;
    while j < n && cs[j] != ' '
        invariant
            g == cs@,
            n == cs.len(),
            j <= n,
            forall|k: int| 0 <= k < j ==> g[k] != ' ',
        decreases n - j,
    {
        j = j + 1;
    }
    if j == n || j == 0 || j + 1 == n {
        proof {
            assert forall|id: Seq<char>, text: Seq<char>| is_kafka_message(g, id, text) implies false by {
                lemma_id_ends_at_first_space(g, j as int, id, text);
                assert(g.len() == id.len() + 1 + text.len());
            }
        }
        return Err(ParseError);
    }
    let mut k: usize = 0;
    while k < j
        invariant
            g == cs@,
            g == s@,
            s == *old(input),
            s == *input,
            n == cs.len(),
            k <= j < n,
            g[j as int] == ' ',
            forall|x: int| 0 <= x < j ==> g[x] != ' ',
            forall|x: int| 0 <= x < k ==> topic_char(#[trigger] g[x]),
        decreases j - k,
    {
        if !is_topic_char(cs[k]) {
            proof {
                assert forall|id: Seq<char>, text: Seq<char>| is_kafka_message(g, id, text) implies false by {
                    lemma_id_ends_at_first_space(g, j as int, id, text);
                    assert(g[k as int] == id[k as int]);
                    assert(topic_char(id[k as int]));
                }
            }
            return Err(ParseError);
        }
        k = k + 1;
    }
    let id = s.substring_char(0, j);
    let text = s.substring_char(j + 1, n);
    *input = text;
    let out = ParsedKafkaMessage { database_id: id.to_string(), message: text.to_string() };
    proof {
        assert forall|x: int| 0 <= x < id@.len() implies topic_char(#[trigger] id@[x]) by {
            assert(id@[x] == g[x]);
        }
        assert(g =~= id@ + seq![' '] + text@);
    }
    Ok(out)
}

impl std::str::FromStr for ParsedKafkaMessage {
    type Err = String;

    /// Parse a whole Kafka message as [`parse_kafka_message`] does; a message
    /// of another shape is refused with an empty description.
    fn from_str(s: &str) -> (r: Result<Self, Self::Err>)
        ensures
            r matches Ok(m) ==> is_kafka_message(s@, m.database_id@, m.message@),
            r is Err <==> !well_formed_message(s@),
            r matches Err(e) ==> e@.len() == 0,
    {
        let mut rest = s;
        match parse_kafka_message(&mut rest) {
            Ok(m) => Ok(m),
            Err(_) => Err(String::new()),
        }
    }
}

// ---------------------------------------------------------------------------
// Settings taken from the environment (environment variables or a `.env` file).

/// Why an environment variable could not be read.
#[derive(Debug)]
pub enum VarError {
    /// The variable is not set.
    NotPresent,
    /// The variable is set, but its value (these bytes) is not valid Unicode.
    NotUnicode(Vec<u8>),
}

/// The result of looking an environment variable up.
pub type Lookup = Result<String, VarError>;

/// Why the settings could not be assembled.
#[derive(Debug)]
pub enum SetupVariableError {
    /// A variable that is needed could not be read.
    VarError(VarError),
    /// A variable holds a value of the wrong shape; the text says which and why.
    ParseError(String),
    /// The user asked for help: the program should explain itself and stop.
    AskedHelp,
}

/// The value of a setting.
pub type EnvVar = String;

/// Everything the dispatcher needs from its environment.
#[derive(Debug)]
pub struct EnvVars {
    /// What is needed to reach Kafka.
    pub kafka: KafkaVars,
    /// What is needed to reach the database.
    pub surreal: SurrealVars,
    /// Whether the model is loaded on the first message rather than at start.
    pub lazy_load: bool,
}

/// What is needed to reach the database.
#[derive(Debug)]
pub struct SurrealVars {
    pub surreal_host: EnvVar,
    pub surreal_namespace: EnvVar,
    pub surreal_database: EnvVar,
    pub surreal_user: EnvVar,
    pub surreal_pass: EnvVar,
    pub surreal_table: EnvVar,
}

/// What is needed to reach Kafka.
#[derive(Debug)]
pub struct KafkaVars {
    pub kafka_host: EnvVar,
    pub kafka_topics: Vec<EnvVar>,
    pub kafka_group_id: EnvVar,
    pub kafka_timeout: EnvVar,
}

/// The raw environment the settings are read from: the program's arguments
/// and the lookup of each variable.
pub struct Environment {
    pub args: Vec<String>,
    /// `LAZY_LOAD`
    pub lazy_load: Lookup,
    /// `KAFKA_HOST`
    pub kafka_host: Lookup,
    /// `KAFKA_TOPICS`
    pub kafka_topics: Lookup,
    /// `KAFKA_GROUP_ID`
    pub kafka_group_id: Lookup,
    /// `KAFKA_TIMEOUT`
    pub kafka_timeout: Lookup,
    /// `SURREAL_HOST`
    pub surreal_host: Lookup,
    /// `SURREAL_NAMESPACE`
    pub surreal_namespace: Lookup,
    /// `SURREAL_DATABASE`
    pub surreal_database: Lookup,
    /// `SURREAL_USER`
    pub surreal_user: Lookup,
    /// `SURREAL_PASS`
    pub surreal_pass: Lookup,
    /// `SURREAL_TABLE`
    pub surreal_table: Lookup,
}

/// The texts of a list of strings.
pub open spec fn string_texts(v: Seq<String>) -> Seq<Seq<char>> {
    v.map_values(|t: String| t@)
}

pub open spec fn lazy_load_message() -> Seq<char> {
    "LAZY_LOAD couldn't be read as a bool, consider using true or false"@
}

pub open spec fn kafka_host_message() -> Seq<char> {
    "KAFKA_HOST couldn't be parsed, use either a valid ipv4 address or localhost along with valid ports, it should be a comma separated list"@
}

pub open spec fn topics_message() -> Seq<char> {
    "KAFKA_TOPICS could not be parsed, must be a word (constructed out of some alphanumerics and _'s) or comma seperated list of words, make sure you don't have any trailing commas"@
}

pub open spec fn timeout_message() -> Seq<char> {
    "KAFKA_TIMEOUT could not be parsed, must be a number"@
}

pub open spec fn surreal_host_message() -> Seq<char> {
    "SURREAL_HOST could not be parsed, please use a valid ipv4 address or localhost, or port, it should be a comma separated list"@
}

/// The timeout used when `KAFKA_TIMEOUT` cannot be read.
pub open spec fn default_timeout() -> Seq<char> {
    "60000"@
}

/// The text of `KAFKA_TIMEOUT`, or the default where it cannot be read.
pub open spec fn timeout_text(timeout: Lookup) -> Seq<char> {
    match timeout {
        Ok(t) => t@,
        Err(_) => default_timeout(),
    }
}

/// What a failure to assemble the settings is, as a value of the
/// specification.
pub enum SetupFailure {
    Var(VarError),
    Message(Seq<char>),
    Help,
}

/// The failure that an error stands for.
pub open spec fn failure_of(e: SetupVariableError) -> SetupFailure {
    match e {
        SetupVariableError::VarError(v) => SetupFailure::Var(v),
        SetupVariableError::ParseError(m) => SetupFailure::Message(m@),
        SetupVariableError::AskedHelp => SetupFailure::Help,
    }
}

/// `r` fails exactly as `f` says, or succeeds when `f` is `None` and
/// `ok` holds of its value.
pub open spec fn outcome<T>(
    r: Result<T, SetupVariableError>,
    f: Option<SetupFailure>,
    ok: spec_fn(T) -> bool,
) -> bool {
    match f {
        Some(x) => r matches Err(e) && failure_of(e) == x,
        None => r matches Ok(v) && ok(v),
    }
}

/// Where the Kafka lookups fail, the first failure in the order
/// `KAFKA_HOST`, `KAFKA_TOPICS`, `KAFKA_GROUP_ID`, `KAFKA_TIMEOUT`.
pub open spec fn kafka_failure(
    host: Lookup,
    topics: Lookup,
    group_id: Lookup,
    timeout: Lookup,
) -> Option<SetupFailure> {
    match host {
        Err(e) => Some(SetupFailure::Var(e)),
        Ok(h) => if h@.len() == 0 || host_list_end(h@, 0) != h@.len() {
            Some(SetupFailure::Message(kafka_host_message()))
        } else {
            match topics {
            Err(e) => Some(SetupFailure::Var(e)),
            Ok(t) => if !is_topic_list(t@) {
                Some(SetupFailure::Message(topics_message()))
            } else {
                match group_id {
                    Err(e) => Some(SetupFailure::Var(e)),
                    Ok(_) => if timeout_end(timeout_text(timeout), 0) != Some(
                        timeout_text(timeout).len() as int,
                    ) {
                        Some(SetupFailure::Message(timeout_message()))
                    } else {
                        None
                    },
                }
            },
        }
        },
    }
}

/// `k` holds the Kafka settings that lookups without failure give:
/// `KAFKA_HOST` as it is, the topic names of `KAFKA_TOPICS`, `KAFKA_GROUP_ID`
/// as it is, and `KAFKA_TIMEOUT` (or the default) as it is.
pub open spec fn kafka_settings(
    k: KafkaVars,
    host: Lookup,
    topics: Lookup,
    group_id: Lookup,
    timeout: Lookup,
) -> bool {
    &&& k.kafka_host == host->Ok_0
    &&& k.kafka_topics.len() > 0
    &&& forall|i: int| 0 <= i < k.kafka_topics.len() ==> is_topic(#[trigger] k.kafka_topics@[i]@)
    &&& join_commas(string_texts(k.kafka_topics@)) == topics->Ok_0@
    &&& k.kafka_group_id == group_id->Ok_0
    &&& k.kafka_timeout@ == timeout_text(timeout)
}

/// Where the database lookups fail, the first failure in the order
/// `SURREAL_HOST` (which must be wholly a comma-separated list of hosts,
/// each with an optional port), `SURREAL_NAMESPACE`,
/// `SURREAL_DATABASE`, `SURREAL_USER`, `SURREAL_PASS`, `SURREAL_TABLE`.
pub open spec fn surreal_failure(
    host: Lookup,
    namespace: Lookup,
    database: Lookup,
    user: Lookup,
    pass: Lookup,
    table: Lookup,
) -> Option<SetupFailure> {
    match host {
        Err(e) => Some(SetupFailure::Var(e)),
        Ok(h) => if host_entries_end(h@, 0) != Some(h@.len() as int) {
            Some(SetupFailure::Message(surreal_host_message()))
        } else {
            match namespace {
                Err(e) => Some(SetupFailure::Var(e)),
                Ok(_) => match database {
                    Err(e) => Some(SetupFailure::Var(e)),
                    Ok(_) => match user {
                        Err(e) => Some(SetupFailure::Var(e)),
                        Ok(_) => match pass {
                            Err(e) => Some(SetupFailure::Var(e)),
                            Ok(_) => match table {
                                Err(e) => Some(SetupFailure::Var(e)),
                                Ok(_) => None,
                            },
                        },
                    },
                },
            }
        },
    }
}

/// `v` holds the database settings that lookups without failure give: the
/// values as they are.
pub open spec fn surreal_settings(
    v: SurrealVars,
    host: Lookup,
    namespace: Lookup,
    database: Lookup,
    user: Lookup,
    pass: Lookup,
    table: Lookup,
) -> bool {
    &&& v.surreal_host == host->Ok_0
    &&& v.surreal_namespace == namespace->Ok_0
    &&& v.surreal_database == database->Ok_0
    &&& v.surreal_user == user->Ok_0
    &&& v.surreal_pass == pass->Ok_0
    &&& v.surreal_table == table->Ok_0
}

/// Where `KAFKA_TIMEOUT` cannot be read, the timeout is 60000, which is
/// itself a valid timeout; a value that can be read is used as it is.
pub proof fn lemma_timeout_defaults_to_60000(timeout: Lookup)
    ensures
        timeout is Err ==> timeout_text(timeout) == numeral(60000),
        timeout matches Ok(t) ==> timeout_text(timeout) == t@,
        timeout_end(numeral(60000), 0) == Some(5int),
{
    lemma_timeouts_fit_a_u32(60000);
    reveal_with_fuel(numeral, 6);
    assert(numeral(60000) =~= seq!['6', '0', '0', '0', '0']);
    reveal_strlit("60000");
}

/// Well-formed Kafka settings are accepted: a non-empty list of
/// `host:port` entries in range, a non-empty list of topic names, any group
/// id, and a timeout that fits in a `u32` (or none) give no failure.
pub proof fn lemma_well_formed_kafka_settings_are_accepted(
    host: Lookup,
    topics: Lookup,
    group_id: Lookup,
    timeout: Lookup,
    entries: Seq<(Option<(nat, nat, nat, nat)>, Option<nat>)>,
    words: Seq<Seq<char>>,
    t: nat,
)
    requires
        host matches Ok(h) && h@ == entries_text(entries),
        entries.len() > 0,
        forall|k: int|
            0 <= k < entries.len() ==> entry_in_range(#[trigger] entries[k]) && entries[k].1
                is Some,
        topics matches Ok(w) && w@ == join_commas(words),
        words.len() > 0,
        forall|k: int| 0 <= k < words.len() ==> is_topic(#[trigger] words[k]),
        group_id is Ok,
        timeout is Err || (timeout matches Ok(x) && x@ == numeral(t)),
        t <= u32_max(),
    ensures
        kafka_failure(host, topics, group_id, timeout) is None,
{
    lemma_host_lists_are_read_whole(entries);
    lemma_host_list_text_not_empty(entries);
    lemma_join_is_topic_list(words);
    lemma_timeouts_fit_a_u32(t);
    lemma_timeouts_fit_a_u32(60000);
    assert(numeral(60000) == default_timeout()) by {
        reveal_with_fuel(numeral, 6);
        assert(numeral(60000) =~= seq!['6', '0', '0', '0', '0']);
        reveal_strlit("60000");
    }
}

/// Well-formed database settings are accepted: a non-empty list of hosts in
/// range, each with an optional port, and the other values present.
pub proof fn lemma_well_formed_surreal_settings_are_accepted(
    host: Lookup,
    namespace: Lookup,
    database: Lookup,
    user: Lookup,
    pass: Lookup,
    table: Lookup,
    entries: Seq<(Option<(nat, nat, nat, nat)>, Option<nat>)>,
)
    requires
        host matches Ok(h) && h@ == entries_text(entries),
        entries.len() > 0,
        forall|k: int| 0 <= k < entries.len() ==> entry_in_range(#[trigger] entries[k]),
        namespace is Ok,
        database is Ok,
        user is Ok,
        pass is Ok,
        table is Ok,
    ensures
        surreal_failure(host, namespace, database, user, pass, table) is None,
{
    lemma_host_lists_are_read_whole(entries);
}

proof fn lemma_host_list_text_not_empty(entries: Seq<(Option<(nat, nat, nat, nat)>, Option<nat>)>)
    requires
        entries.len() > 0,
    ensures
        entries_text(entries).len() > 0,
{
    crate::addresses::lemma_entry_text_not_empty(entries[0]);
    if entries.len() > 1 {
        assert(entries_text(entries) == crate::addresses::entry_text(entries[0]) + seq![',']
            + entries_text(entries.drop_first()));
    }
}

/// The Kafka settings, given the lookups of `KAFKA_HOST`, `KAFKA_TOPICS`,
/// `KAFKA_GROUP_ID` and `KAFKA_TIMEOUT`, checked in that order: the first
/// variable that cannot be read, or whose value is not wholly of its shape,
/// gives the error. `KAFKA_HOST` must be a non-empty comma-separated list of
/// `host:port` entries, `KAFKA_TOPICS` a list of topic names and
/// `KAFKA_TIMEOUT` a number that fits in a `u32`; `KAFKA_TIMEOUT` falls back
/// to `60000` when it cannot be read.
pub fn parse_kafka_env_vars(
    host: Lookup,
    topics: Lookup,
    group_id: Lookup,
    timeout: Lookup,
) -> (r: Result<KafkaVars, SetupVariableError>)
    ensures
        outcome(
            r,
            kafka_failure(host, topics, group_id, timeout),
            |k: KafkaVars| kafka_settings(k, host, topics, group_id, timeout),
        ),
        timeout is Err ==> (r matches Ok(k) ==> k.kafka_timeout@ == "60000"@),
        timeout matches Ok(t) ==> (r matches Ok(k) ==> k.kafka_timeout@ == t@),
        host matches Ok(h) ==> (r matches Ok(k) ==> k.kafka_host@ == h@),
{
    let host = match host {
        Ok(h) => h,
        Err(e) => return Err(SetupVariableError::VarError(e)),
    };
    let mut host_rest: &str = host.as_str();
    let whole_list = match parse_hostname_set(&mut host_rest) {
        Ok(_) => !host.as_str().is_empty() && host_rest.is_empty(),
        Err(_) => false,
    };
    if !whole_list {
        return Err(
            SetupVariableError::ParseError(
                String::from_str(
                    "KAFKA_HOST couldn't be parsed, use either a valid ipv4 address or localhost along with valid ports, it should be a comma separated list",
                ),
            ),
        );
    }
    let kafka_host = host;
    let topics = match topics {
        Ok(t) => t,
        Err(e) => return Err(SetupVariableError::VarError(e)),
    };
    let mut topics_rest: &str = topics.as_str();
    let words = match parse_topics(&mut topics_rest) {
        Ok(v) => v,
        Err(_) => return Err(
            SetupVariableError::ParseError(
                String::from_str(
                    "KAFKA_TOPICS could not be parsed, must be a word (constructed out of some alphanumerics and _'s) or comma seperated list of words, make sure you don't have any trailing commas",
                ),
            ),
        ),
    };
    let mut kafka_topics: Vec<String> = Vec::new();
    let mut i: usize = 0;
    while i < words.len()
        invariant
            i <= words.len(),
            kafka_topics.len() == i,
            forall|k: int| 0 <= k < i ==> #[trigger] kafka_topics@[k]@ == words@[k]@,
        decreases words.len() - i,
    {
        kafka_topics.push(words[i].to_string());
        i = i + 1;
    }
    proof {
        assert(string_texts(kafka_topics@) =~= texts(words@));
    }
    let group_id = match group_id {
        Ok(g) => g,
        Err(e) => return Err(SetupVariableError::VarError(e)),
    };
    let timeout_var = match timeout {
        Ok(t) => t,
        Err(_) => String::from_str("60000"),
    };
    let mut timeout_rest: &str = timeout_var.as_str();
    let whole_number = match test_timeout(&mut timeout_rest) {
        Ok(_) => timeout_rest.is_empty(),
        Err(_) => false,
    };
    if !whole_number {
        return Err(
            SetupVariableError::ParseError(
                String::from_str("KAFKA_TIMEOUT could not be parsed, must be a number"),
            ),
        );
    }
    let kafka_timeout = timeout_var;
    Ok(KafkaVars { kafka_host, kafka_topics, kafka_group_id: group_id, kafka_timeout })
}


/// The database settings, given the lookups of `SURREAL_HOST`,
/// `SURREAL_NAMESPACE`, `SURREAL_DATABASE`, `SURREAL_USER`, `SURREAL_PASS`
/// and `SURREAL_TABLE`, checked in that order. `SURREAL_HOST` must be wholly
/// a comma-separated list of hosts (IPv4 addresses or `localhost`), each
/// with an optional `:port`; it is kept as it is.
pub fn parse_surreal_env_vars(
    host: Lookup,
    namespace: Lookup,
    database: Lookup,
    user: Lookup,
    pass: Lookup,
    table: Lookup,
) -> (r: Result<SurrealVars, SetupVariableError>)
    ensures
        outcome(
            r,
            surreal_failure(host, namespace, database, user, pass, table),
            |v: SurrealVars| surreal_settings(v, host, namespace, database, user, pass, table),
        ),
{
    let host = match host {
        Ok(h) => h,
        Err(e) => return Err(SetupVariableError::VarError(e)),
    };
    let mut host_rest: &str = host.as_str();
    let whole_list = match parse_hostname_list(&mut host_rest) {
        Ok(_) => host_rest.is_empty(),
        Err(_) => false,
    };
    if !whole_list {
        return Err(
            SetupVariableError::ParseError(
                String::from_str(
                    "SURREAL_HOST could not be parsed, please use a valid ipv4 address or localhost, or port, it should be a comma separated list",
                ),
            ),
        );
    }
    let surreal_host = host;
    let surreal_namespace = match namespace {
        Ok(v) => v,
        Err(e) => return Err(SetupVariableError::VarError(e)),
    };
    let surreal_database = match database {
        Ok(v) => v,
        Err(e) => return Err(SetupVariableError::VarError(e)),
    };
    let surreal_user = match user {
        Ok(v) => v,
        Err(e) => return Err(SetupVariableError::VarError(e)),
    };
    let surreal_pass = match pass {
        Ok(v) => v,
        Err(e) => return Err(SetupVariableError::VarError(e)),
    };
    let surreal_table = match table {
        Ok(v) => v,
        Err(e) => return Err(SetupVariableError::VarError(e)),
    };
    Ok(
        SurrealVars {
            surreal_host,
            surreal_namespace,
            surreal_database,
            surreal_user,
            surreal_pass,
            surreal_table,
        },
    )
}

/// Whether the arguments ask for help: one of them is `-h` or `--help`.
pub open spec fn asks_for_help(args: Seq<String>) -> bool {
    exists|i: int| 0 <= i < args.len() && (args[i]@ == "-h"@ || args[i]@ == "--help"@)
}

/// Whether one of `args` is `-h` or `--help`.
pub fn asked_help(args: &Vec<String>) -> (b: bool)
    ensures
        b == asks_for_help(args@),
{
    let short = String::from_str("-h");
    let long = String::from_str("--help");
    let mut i: usize = 0;
    while i < args.len()
        invariant
            i <= args.len(),
            short@ == "-h"@,
            long@ == "--help"@,
            forall|k: int| 0 <= k < i ==> !(args@[k]@ == "-h"@ || args@[k]@ == "--help"@),
        decreases args.len() - i,
    {
        if args[i] == short || args[i] == long {
            return true;
        }
        i = i + 1;
    }
    false
}

/// Where `LAZY_LOAD` fails: it cannot be read, or does not start with one
/// of `t`, `T`, `f`, `F`.
pub open spec fn lazy_load_failure(lazy_load: Lookup) -> Option<SetupFailure> {
    match lazy_load {
        Err(e) => Some(SetupFailure::Var(e)),
        Ok(l) => if l@.len() > 0 && (l@[0] == 't' || l@[0] == 'T' || l@[0] == 'f' || l@[0]
            == 'F') {
            None
        } else {
            Some(SetupFailure::Message(lazy_load_message()))
        },
    }
}

/// Where the environment fails, the first failure in the order: a request
/// for help, `LAZY_LOAD`, the Kafka settings, the database settings.
pub open spec fn environment_failure(env: Environment) -> Option<SetupFailure> {
    if asks_for_help(env.args@) {
        Some(SetupFailure::Help)
    } else if lazy_load_failure(env.lazy_load) is Some {
        lazy_load_failure(env.lazy_load)
    } else if kafka_failure(
        env.kafka_host,
        env.kafka_topics,
        env.kafka_group_id,
        env.kafka_timeout,
    ) is Some {
        kafka_failure(env.kafka_host, env.kafka_topics, env.kafka_group_id, env.kafka_timeout)
    } else {
        surreal_failure(
            env.surreal_host,
            env.surreal_namespace,
            env.surreal_database,
            env.surreal_user,
            env.surreal_pass,
            env.surreal_table,
        )
    }
}

/// `v` holds the settings that an environment without failure gives.
pub open spec fn environment_settings(v: EnvVars, env: Environment) -> bool {
    &&& v.lazy_load == (env.lazy_load->Ok_0@[0] == 't' || env.lazy_load->Ok_0@[0] == 'T')
    &&& kafka_settings(
        v.kafka,
        env.kafka_host,
        env.kafka_topics,
        env.kafka_group_id,
        env.kafka_timeout,
    )
    &&& surreal_settings(
        v.surreal,
        env.surreal_host,
        env.surreal_namespace,
        env.surreal_database,
        env.surreal_user,
        env.surreal_pass,
        env.surreal_table,
    )
}

/// `LAZY_LOAD` means what [`parse_bool`] reads in it: in settings assembled
/// without failure, a value starting with `t` or `T` turns lazy loading on,
/// and one starting with `f` or `F` turns it off.
pub proof fn lemma_lazy_load_reads_as_a_boolean(env: Environment, v: EnvVars)
    requires
        environment_failure(env) is None,
        environment_settings(v, env),
    ensures
        env.lazy_load is Ok,
        ({
            let l = env.lazy_load->Ok_0@;
            &&& l.len() > 0
            &&& (l[0] == 't' || l[0] == 'T') ==> v.lazy_load
            &&& (l[0] == 'f' || l[0] == 'F') ==> !v.lazy_load
        }),
{
}

/// All the settings, read from `env` in order: a request for help comes
/// first; then `LAZY_LOAD`, which must read as a boolean (see
/// [`parse_bool`]); then the Kafka settings; then the database settings. The
/// first that fails gives the error.
pub fn environment_vars(env: Environment) -> (r: Result<EnvVars, SetupVariableError>)
    ensures
        outcome(r, environment_failure(env), |v: EnvVars| environment_settings(v, env)),
        r matches Ok(v) ==> env.lazy_load matches Ok(l) && l@.len() > 0 && (v.lazy_load <==> (
        l@[0] == 't' || l@[0] == 'T')),
{
    let Environment {
        args,
        lazy_load,
        kafka_host,
        kafka_topics,
        kafka_group_id,
        kafka_timeout,
        surreal_host,
        surreal_namespace,
        surreal_database,
        surreal_user,
        surreal_pass,
        surreal_table,
    } = env;
    if asked_help(&args) {
        return Err(SetupVariableError::AskedHelp);
    }
    let lazy_load_var = match lazy_load {
        Ok(l) => l,
        Err(e) => return Err(SetupVariableError::VarError(e)),
    };
    let mut lazy_rest: &str = lazy_load_var.as_str();
    let lazy_load = match parse_bool(&mut lazy_rest) {
        Ok(b) => b,
        Err(_) => return Err(
            SetupVariableError::ParseError(
                String::from_str(
                    "LAZY_LOAD couldn't be read as a bool, consider using true or false",
                ),
            ),
        ),
    };
    let kafka = parse_kafka_env_vars(kafka_host, kafka_topics, kafka_group_id, kafka_timeout)?;
    let surreal = parse_surreal_env_vars(
        surreal_host,
        surreal_namespace,
        surreal_database,
        surreal_user,
        surreal_pass,
        surreal_table,
    )?;
    Ok(EnvVars { kafka, surreal, lazy_load })
}

} // verus!
