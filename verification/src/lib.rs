//! The verified core of the dispatcher that hands code-generation jobs from
//! Kafka to a pool of language-model workers and writes their answers to a
//! SurrealDB database.
pub mod addresses;
pub mod dispatcher;
pub mod generation;
pub mod http_server;
pub mod parser;
pub mod syntax;
pub mod text;
pub mod worker;
