use rust_dispatcher::parser::{
    asked_help, environment_vars, parse_kafka_env_vars, parse_surreal_env_vars, Environment,
    Lookup, SetupVariableError, VarError,
};

fn set(v: &str) -> Lookup {
    Ok(v.to_string())
}

fn unset() -> Lookup {
    Err(VarError::NotPresent)
}

fn full_environment(args: &[&str]) -> Environment {
    Environment {
        args: args.iter().map(|a| a.to_string()).collect(),
        lazy_load: set("false"),
        kafka_host: set("localhost:9092,192.168.0.4:3030"),
        kafka_topics: set("jobs,other_jobs"),
        kafka_group_id: set("shard_1"),
        kafka_timeout: set("30000"),
        surreal_host: set("localhost"),
        surreal_namespace: set("scg"),
        surreal_database: set("backend"),
        surreal_user: set("root"),
        surreal_pass: set("SECRET-REDACTED"),
        surreal_table: set("requests"),
    }
}

fn message(e: SetupVariableError) -> String {
    match e {
        SetupVariableError::ParseError(m) => m,
        other => panic!("expected a parse error, got {other:?}"),
    }
}

#[test]
fn a_full_environment_gives_all_settings() {
    let v = environment_vars(full_environment(&["dispatcher"])).unwrap();
    assert!(!v.lazy_load);
    assert_eq!(v.kafka.kafka_host, "localhost:9092,192.168.0.4:3030");
    assert_eq!(v.kafka.kafka_topics, vec!["jobs".to_string(), "other_jobs".to_string()]);
    assert_eq!(v.kafka.kafka_group_id, "shard_1");
    assert_eq!(v.kafka.kafka_timeout, "30000");
    assert_eq!(v.surreal.surreal_host, "localhost");
    assert_eq!(v.surreal.surreal_namespace, "scg");
    assert_eq!(v.surreal.surreal_database, "backend");
    assert_eq!(v.surreal.surreal_user, "root");
    assert_eq!(v.surreal.surreal_pass, "SECRET-REDACTED");
    assert_eq!(v.surreal.surreal_table, "requests");
}

#[test]
fn help_comes_before_everything_else() {
    let mut env = full_environment(&["dispatcher", "--help"]);
    env.lazy_load = unset();
    assert!(matches!(environment_vars(env), Err(SetupVariableError::AskedHelp)));
    let env = full_environment(&["-h"]);
    assert!(matches!(environment_vars(env), Err(SetupVariableError::AskedHelp)));
    assert!(!asked_help(&vec!["-help".to_string(), "--h".to_string()]));
}

#[test]
fn lazy_load_is_read_from_its_first_letter() {
    let mut env = full_environment(&[]);
    env.lazy_load = set("Troo");
    assert!(environment_vars(env).unwrap().lazy_load);
    let mut env = full_environment(&[]);
    env.lazy_load = set("yes");
    assert_eq!(
        message(environment_vars(env).unwrap_err()),
        "LAZY_LOAD couldn't be read as a bool, consider using true or false"
    );
    let mut env = full_environment(&[]);
    env.lazy_load = unset();
    assert!(matches!(
        environment_vars(env),
        Err(SetupVariableError::VarError(VarError::NotPresent))
    ));
}

#[test]
fn the_first_broken_variable_is_reported() {
    let mut env = full_environment(&[]);
    env.kafka_topics = set("a,,b");
    env.surreal_table = unset();
    assert_eq!(
        message(environment_vars(env).unwrap_err()),
        "KAFKA_TOPICS could not be parsed, must be a word (constructed out of some alphanumerics and _'s) or comma seperated list of words, make sure you don't have any trailing commas"
    );
    let mut env = full_environment(&[]);
    env.surreal_host = set("db.example");
    assert_eq!(
        message(environment_vars(env).unwrap_err()),
        "SURREAL_HOST could not be parsed, please use a valid ipv4 address or localhost, or port, it should be a comma separated list"
    );
    let mut env = full_environment(&[]);
    env.surreal_pass = Err(VarError::NotUnicode(vec![0xff]));
    assert!(matches!(
        environment_vars(env),
        Err(SetupVariableError::VarError(VarError::NotUnicode(b))) if b == vec![0xff]
    ));
}

#[test]
fn kafka_timeout_falls_back_to_the_default() {
    let k = parse_kafka_env_vars(set("localhost:9092"), set("jobs"), set("g"), unset()).unwrap();
    assert_eq!(k.kafka_timeout, "60000");
    let k = parse_kafka_env_vars(
        set("localhost:9092"),
        set("jobs"),
        set("g"),
        Err(VarError::NotUnicode(vec![0xc3])),
    )
    .unwrap();
    assert_eq!(k.kafka_timeout, "60000");
    let e = parse_kafka_env_vars(set("localhost:9092"), set("jobs"), set("g"), set("soon"));
    assert_eq!(message(e.unwrap_err()), "KAFKA_TIMEOUT could not be parsed, must be a number");
    let e = parse_kafka_env_vars(set("h"), set("jobs"), set("g"), set("4294967296"));
    assert!(e.is_err());
    let k = parse_kafka_env_vars(set("localhost:1"), set("jobs"), set("g"), set("4294967295"))
        .unwrap();
    assert_eq!(k.kafka_timeout, "4294967295");
    let e = parse_kafka_env_vars(set("localhost:1"), set("jobs"), set("g"), set("100ms"));
    assert_eq!(message(e.unwrap_err()), "KAFKA_TIMEOUT could not be parsed, must be a number");
}

const KAFKA_HOST_MESSAGE: &str = "KAFKA_HOST couldn't be parsed, use either a valid ipv4 address or localhost along with valid ports, it should be a comma separated list";

#[test]
fn kafka_host_must_be_wholly_a_list_of_hosts_and_ports() {
    let k = parse_kafka_env_vars(set("localhost:9092,10.0.0.1:1"), set("t"), set("g"), unset())
        .unwrap();
    assert_eq!(k.kafka_host, "localhost:9092,10.0.0.1:1");
    for bad in ["not_a_host", "localhost:9092,broker:1", "localhost", "localhost:9092,", ""] {
        let e = parse_kafka_env_vars(set(bad), set("t"), set("g"), unset());
        assert_eq!(message(e.unwrap_err()), KAFKA_HOST_MESSAGE, "{bad:?}");
    }
}

#[test]
fn surreal_host_is_a_comma_separated_list() {
    let s = parse_surreal_env_vars(
        set("localhost,192.168.0.4"),
        set("ns"),
        set("db"),
        set("u"),
        set("p"),
        set("t"),
    )
    .unwrap();
    assert_eq!(s.surreal_host, "localhost,192.168.0.4");
    assert_eq!(s.surreal_namespace, "ns");
    assert_eq!(s.surreal_database, "db");
    assert_eq!(s.surreal_user, "u");
    assert_eq!(s.surreal_pass, "p");
    assert_eq!(s.surreal_table, "t");
    for bad in ["localhost,", "localhost;x", ",localhost", "localhost:", "db.example"] {
        let e = parse_surreal_env_vars(set(bad), set("n"), set("d"), set("u"), set("p"), set("t"));
        assert!(e.is_err(), "{bad:?}");
    }
}

#[test]
fn missing_variables_are_reported_in_order() {
    let e = parse_kafka_env_vars(unset(), unset(), unset(), unset());
    assert!(matches!(e, Err(SetupVariableError::VarError(VarError::NotPresent))));
    let e = parse_kafka_env_vars(set("localhost:1"), set("t"), unset(), set("x"));
    assert!(matches!(e, Err(SetupVariableError::VarError(VarError::NotPresent))));
    let e = parse_surreal_env_vars(
        set("127.0.0.1"),
        set("n"),
        set("d"),
        set("u"),
        Err(VarError::NotUnicode(vec![1, 2])),
        unset(),
    );
    assert!(matches!(e, Err(SetupVariableError::VarError(VarError::NotUnicode(b))) if b == vec![1, 2]));
    let s = parse_surreal_env_vars(set("127.0.0.1:8000"), set("n"), set("d"), set("u"), set("p"), set("t"))
        .unwrap();
    assert_eq!(s.surreal_host, "127.0.0.1:8000");
}
