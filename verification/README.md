# rust_dispatcher

A dispatcher that takes code-generation jobs from Kafka, runs a language
model on them in a pool of worker threads, and writes the answers to a
SurrealDB database; it also serves a small HTTP interface.

The decisions are a Verus-verified library under `src/`:

- `syntax.rs`: the grammar of the configuration values (numbers, IPv4
  addresses, hosts and ports, topic lists) as spec functions, and the
  executable recognisers proved against them;
- `parser.rs`: the parsers of configuration values and Kafka messages, and
  the assembly of the settings from the environment, with the first failure
  reported;
- `worker.rs`: what a worker does with each message and what it writes back;
- `generation.rs`: which tokens the model is fed at each step of generation,
  and when generation stops;
- `dispatcher.rs`: the Kafka consumer's configuration and what is done with
  each event it delivers;
- `http_server.rs`: the HTTP handlers' answers;
- `text.rs`: the characters of a string.

`app/` holds the program around it: reading the environment, the threads,
the model, Kafka, the database and the HTTP server.
