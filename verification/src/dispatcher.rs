//! The dispatcher's side of Kafka: how the consumer is configured, and what
//! is done with each event it delivers. The consumer itself runs outside.
use vstd::prelude::*;
use crate::parser::KafkaVars;
use vstd::string::StringExecFns;

verus! {

/// The context the Kafka consumer is created with; it adds nothing to the
/// client's default behaviour.
pub struct KafkaClientContext;

/// The consumer's configuration for `vars`, as (key, value) pairs.
pub open spec fn consumer_settings(vars: KafkaVars) -> Seq<(Seq<char>, Seq<char>)> {
    seq![
        ("group.id"@, vars.kafka_group_id@),
        ("bootstrap.servers"@, vars.kafka_host@),
        ("enable.partition.eof"@, "false"@),
        ("session.timeout.ms"@, vars.kafka_timeout@),
        ("enable.auto.commit"@, "true"@),
    ]
}

/// The texts of a list of (key, value) pairs.
pub open spec fn pair_texts(v: Seq<(String, String)>) -> Seq<(Seq<char>, Seq<char>)> {
    v.map_values(|p: (String, String)| (p.0@, p.1@))
}

/// The configuration of the Kafka consumer: it joins the group
/// `KAFKA_GROUP_ID`, reaches the brokers listed in `KAFKA_HOST`, uses
/// `KAFKA_TIMEOUT` as its session timeout, commits offsets automatically and
/// is not told of the end of a partition.
pub fn consumer_config(vars: &KafkaVars) -> (config: Vec<(String, String)>)
    ensures
        pair_texts(config@) == consumer_settings(*vars),
        config.len() == 5,
        config@[0].0@ == "group.id"@,
        config@[0].1@ == vars.kafka_group_id@,
        config@[1].0@ == "bootstrap.servers"@,
        config@[1].1@ == vars.kafka_host@,
        config@[2].0@ == "enable.partition.eof"@,
        config@[2].1@ == "false"@,
        config@[3].0@ == "session.timeout.ms"@,
        config@[3].1@ == vars.kafka_timeout@,
        config@[4].0@ == "enable.auto.commit"@,
        config@[4].1@ == "true"@,
{
    let mut config: Vec<(String, String)> = Vec::new();
    config.push((String::from_str("group.id"), vars.kafka_group_id.clone()));
    config.push((String::from_str("bootstrap.servers"), vars.kafka_host.clone()));
    config.push((String::from_str("enable.partition.eof"), String::from_str("false")));
    config.push((String::from_str("session.timeout.ms"), vars.kafka_timeout.clone()));
    config.push((String::from_str("enable.auto.commit"), String::from_str("true")));
    assert(pair_texts(config@) =~= consumer_settings(*vars));
    config
}

/// The consumer is told of every broker that the settings list: its
/// bootstrap servers are the whole of `KAFKA_HOST`, unchanged; it joins the
/// group `KAFKA_GROUP_ID` and uses `KAFKA_TIMEOUT` as its session timeout.
pub proof fn lemma_consumer_reaches_every_broker(vars: KafkaVars)
    ensures
        consumer_settings(vars).len() == 5,
        consumer_settings(vars)[1] == ("bootstrap.servers"@, vars.kafka_host@),
        consumer_settings(vars)[0] == ("group.id"@, vars.kafka_group_id@),
        consumer_settings(vars)[3] == ("session.timeout.ms"@, vars.kafka_timeout@),
{
}

/// What a message delivered by Kafka carries.
pub enum Payload {
    /// Text: a job for the pool.
    Text(String),
    /// Bytes that are not valid UTF-8.
    NotText,
    /// Nothing.
    Missing,
}

/// What the consumer delivers.
pub enum ConsumerEvent {
    /// Receiving failed.
    RecvFailed,
    /// A message arrived.
    Received(Payload),
}

/// What is reported of an event that gives no job.
#[derive(Debug, Clone, Copy, PartialEq, Eq, Structural)]
pub enum Report {
    RecvFailed,
    NotText,
}

/// One thing to do about an event, in the order given.
pub enum Effect {
    /// Hand this text to the pool as a job.
    Execute(String),
    /// Report that something went wrong.
    Report(Report),
    /// Commit the message as dealt with.
    Commit,
}

/// What is done about an event, in order.
pub open spec fn event_effects(event: ConsumerEvent) -> Seq<Effect> {
    match event {
        ConsumerEvent::RecvFailed => seq![Effect::Report(Report::RecvFailed)],
        ConsumerEvent::Received(Payload::Text(s)) => seq![Effect::Execute(s), Effect::Commit],
        ConsumerEvent::Received(Payload::NotText) => seq![
            Effect::Report(Report::NotText),
            Effect::Commit,
        ],
        ConsumerEvent::Received(Payload::Missing) => seq![Effect::Commit],
    }
}

/// What to do with what the consumer delivers, in order: a failed receive
/// is reported and nothing is committed; a message with text is handed to
/// the pool and then committed; a message whose payload is not text is
/// reported and then committed; a message without payload is committed.
pub fn dispatch(event: ConsumerEvent) -> (effects: Vec<Effect>)
    ensures
        effects@ == event_effects(event),
{
    let mut effects: Vec<Effect> = Vec::new();
    match event {
        ConsumerEvent::RecvFailed => {
            effects.push(Effect::Report(Report::RecvFailed));
        },
        ConsumerEvent::Received(Payload::Text(s)) => {
            effects.push(Effect::Execute(s));
            effects.push(Effect::Commit);
        },
        ConsumerEvent::Received(Payload::NotText) => {
            effects.push(Effect::Report(Report::NotText));
            effects.push(Effect::Commit);
        },
        ConsumerEvent::Received(Payload::Missing) => {
            effects.push(Effect::Commit);
        },
    }
    assert(effects@ =~= event_effects(event));
    effects
}

/// What is done about a stream of events, event after event.
pub open spec fn stream_effects(events: Seq<ConsumerEvent>) -> Seq<Effect>
    decreases events.len(),
{
    if events.len() == 0 {
        Seq::empty()
    } else {
        stream_effects(events.drop_last()) + event_effects(events.last())
    }
}

/// The jobs handed to the pool by a run of effects, in order.
pub open spec fn handed_off(effects: Seq<Effect>) -> Seq<String>
    decreases effects.len(),
{
    if effects.len() == 0 {
        Seq::empty()
    } else {
        let rest = handed_off(effects.drop_last());
        match effects.last() {
            Effect::Execute(s) => rest.push(s),
            _ => rest,
        }
    }
}

/// The texts of the messages received in a stream of events, in order.
pub open spec fn received_texts(events: Seq<ConsumerEvent>) -> Seq<String>
    decreases events.len(),
{
    if events.len() == 0 {
        Seq::empty()
    } else {
        let rest = received_texts(events.drop_last());
        match events.last() {
            ConsumerEvent::Received(Payload::Text(s)) => rest.push(s),
            _ => rest,
        }
    }
}

proof fn lemma_handed_off_append(a: Seq<Effect>, b: Seq<Effect>)
    ensures
        handed_off(a + b) == handed_off(a) + handed_off(b),
    decreases b.len(),
{
    if b.len() == 0 {
        assert(a + b =~= a);
        assert(handed_off(b) =~= Seq::<String>::empty());
        assert(handed_off(a) + handed_off(b) =~= handed_off(a));
    } else {
        lemma_handed_off_append(a, b.drop_last());
        assert((a + b).drop_last() =~= a + b.drop_last());
        assert((a + b).last() == b.last());
        match b.last() {
            Effect::Execute(s) => {
                assert(handed_off(a) + handed_off(b.drop_last()).push(s) =~= (handed_off(a)
                    + handed_off(b.drop_last())).push(s));
            },
            _ => {},
        }
    }
}

/// The text a single event hands off, if any.
pub open spec fn event_text(event: ConsumerEvent) -> Seq<String> {
    match event {
        ConsumerEvent::Received(Payload::Text(s)) => seq![s],
        _ => Seq::empty(),
    }
}

proof fn lemma_event_handed_off(event: ConsumerEvent)
    ensures
        handed_off(event_effects(event)) == event_text(event),
{
    let b = event_effects(event);
    reveal_with_fuel(handed_off, 3);
    match event {
        ConsumerEvent::Received(Payload::Text(s)) => {
            assert(b.drop_last() =~= seq![Effect::Execute(s)]);
            assert(b.drop_last().drop_last() =~= Seq::<Effect>::empty());
            assert(Seq::<String>::empty().push(s) =~= seq![s]);
        },
        ConsumerEvent::Received(Payload::NotText) => {
            assert(b.drop_last() =~= seq![Effect::Report(Report::NotText)]);
            assert(b.drop_last().drop_last() =~= Seq::<Effect>::empty());
        },
        _ => {
            assert(b.drop_last() =~= Seq::<Effect>::empty());
        },
    }
}

/// Over any stream of events, exactly the texts of the messages received are
/// handed to the pool, once each and in the order received.
pub proof fn lemma_hand_offs_in_order(events: Seq<ConsumerEvent>)
    ensures
        handed_off(stream_effects(events)) == received_texts(events),
    decreases events.len(),
{
    if events.len() > 0 {
        let init = events.drop_last();
        let last = events.last();
        lemma_hand_offs_in_order(init);
        let a = stream_effects(init);
        lemma_handed_off_append(a, event_effects(last));
        lemma_event_handed_off(last);
        match last {
            ConsumerEvent::Received(Payload::Text(s)) => {
                assert(handed_off(a) + seq![s] =~= handed_off(a).push(s));
            },
            _ => {
                assert(handed_off(a) + Seq::<String>::empty() =~= handed_off(a));
            },
        }
    }
}

/// `effects` commits right after each hand-off.
pub open spec fn commits_after_hand_offs(effects: Seq<Effect>) -> bool {
    forall|k: int|
        0 <= k < effects.len() && #[trigger] effects[k] is Execute ==> k + 1 < effects.len()
            && effects[k + 1] is Commit
}

/// Over any stream of events, every hand-off to the pool is followed at once
/// by the commit of its message.
pub proof fn lemma_commit_follows_hand_off(events: Seq<ConsumerEvent>)
    ensures
        commits_after_hand_offs(stream_effects(events)),
    decreases events.len(),
{
    if events.len() > 0 {
        let init = events.drop_last();
        lemma_commit_follows_hand_off(init);
        let a = stream_effects(init);
        let b = event_effects(events.last());
        let all = stream_effects(events);
        assert(all == a + b);
        assert forall|k: int| 0 <= k < all.len() && #[trigger] all[k] is Execute implies k + 1
            < all.len() && all[k + 1] is Commit by {
            if k < a.len() {
                assert(all[k] == a[k]);
                assert(all[k + 1] == a[k + 1]);
            } else {
                assert(all[k] == b[k - a.len()]);
                assert(all[k + 1] == b[k + 1 - a.len()]);
            }
        }
    }
}

} // verus!
