use rust_dispatcher::dispatcher::{
    consumer_config, dispatch, ConsumerEvent, Effect, Payload, Report,
};
use rust_dispatcher::parser::KafkaVars;

#[test]
fn the_consumer_is_configured_from_the_settings() {
    let vars = KafkaVars {
        kafka_host: "localhost:9092".to_string(),
        kafka_topics: vec!["jobs".to_string()],
        kafka_group_id: "shard_1".to_string(),
        kafka_timeout: "60000".to_string(),
    };
    let config = consumer_config(&vars);
    let pairs: Vec<(&str, &str)> = config.iter().map(|(k, v)| (k.as_str(), v.as_str())).collect();
    assert_eq!(
        pairs,
        vec![
            ("group.id", "shard_1"),
            ("bootstrap.servers", "localhost:9092"),
            ("enable.partition.eof", "false"),
            ("session.timeout.ms", "60000"),
            ("enable.auto.commit", "true"),
        ]
    );
}

fn shape(effects: &[Effect]) -> Vec<String> {
    effects
        .iter()
        .map(|e| match e {
            Effect::Execute(s) => format!("execute {s}"),
            Effect::Report(Report::RecvFailed) => "report recv".to_string(),
            Effect::Report(Report::NotText) => "report text".to_string(),
            Effect::Commit => "commit".to_string(),
        })
        .collect()
}

#[test]
fn each_event_is_dispatched() {
    let a = dispatch(ConsumerEvent::Received(Payload::Text("id code".to_string())));
    assert_eq!(shape(&a), vec!["execute id code", "commit"]);
    let a = dispatch(ConsumerEvent::Received(Payload::NotText));
    assert_eq!(shape(&a), vec!["report text", "commit"]);
    let a = dispatch(ConsumerEvent::Received(Payload::Missing));
    assert_eq!(shape(&a), vec!["commit"]);
    let a = dispatch(ConsumerEvent::RecvFailed);
    assert_eq!(shape(&a), vec!["report recv"]);
}

#[test]
fn a_stream_hands_off_its_texts_in_order() {
    let events = vec![
        ConsumerEvent::Received(Payload::Text("a 1".to_string())),
        ConsumerEvent::RecvFailed,
        ConsumerEvent::Received(Payload::Missing),
        ConsumerEvent::Received(Payload::Text("b 2".to_string())),
        ConsumerEvent::Received(Payload::NotText),
    ];
    let mut all: Vec<Effect> = Vec::new();
    for e in events {
        all.extend(dispatch(e));
    }
    assert_eq!(
        shape(&all),
        vec!["execute a 1", "commit", "report recv", "commit", "execute b 2", "commit", "report text", "commit"]
    );
}
