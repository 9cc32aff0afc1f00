//! What a worker decides about each message it takes off the queue: which
//! database record the answer goes to, what the model is asked, and what is
//! written back. The queue, the model and the database are driven outside.
use vstd::prelude::*;
use crate::parser::{is_kafka_message, parse_kafka_message, well_formed_message};
use vstd::string::StringExecFns;

verus! {

/// How many tokens the model may generate for one message.
pub const SAMPLE_LEN: usize = 500;

/// A generation to run: the prompt, and the database record (a table and an
/// id) that receives the answer.
#[derive(Debug)]
pub struct Job {
    pub table: String,
    pub database_id: String,
    pub prompt: String,
    pub sample_len: usize,
}

/// What is merged into the database record once a job is done.
#[derive(Debug)]
pub struct FurfilRequest {
    pub output: String,
}

/// What a worker does with what it took off the queue: `None` means the
/// queue is closed and the worker shuts down; a message becomes the job of
/// answering it. The message's first word is the id of the record in
/// `surreal_table` that receives the answer, and the text after the space
/// that follows it is the prompt.
pub fn handle_message(msg: Option<String>, surreal_table: &String) -> (job: Option<Job>)
    requires
        msg matches Some(m) ==> well_formed_message(m@),
    ensures
        msg is None <==> job is None,
        msg matches Some(m) ==> job matches Some(j) && {
            &&& j.table@ == surreal_table@
            &&& is_kafka_message(m@, j.database_id@, j.prompt@)
            &&& j.sample_len == SAMPLE_LEN
        },
{
    match msg {
        None => None,
        Some(m) => {
            let mut rest: &str = m.as_str();
            match parse_kafka_message(&mut rest) {
                Ok(contents) => Some(
                    Job {
                        table: surreal_table.clone(),
                        database_id: contents.database_id,
                        prompt: contents.message,
                        sample_len: SAMPLE_LEN,
                    },
                ),
                Err(_) => {
                    proof {
                        assert(false);
                    }
                    None
                },
            }
        },
    }
}

/// The order in which a worker starts.
#[derive(Debug, Clone, Copy, PartialEq, Eq, Structural)]
pub enum StartupOrder {
    /// Load the model, then serve messages.
    LoadThenServe,
    /// Wait for the first message, then load the model and serve it and the
    /// rest.
    ReceiveThenLoad,
}

/// How a worker starts: with `LAZY_LOAD` set it waits for its first message
/// before it loads the model; otherwise it loads the model at once.
pub fn startup_order(lazy_load: bool) -> (order: StartupOrder)
    ensures
        lazy_load ==> order == StartupOrder::ReceiveThenLoad,
        !lazy_load ==> order == StartupOrder::LoadThenServe,
{
    if lazy_load {
        StartupOrder::ReceiveThenLoad
    } else {
        StartupOrder::LoadThenServe
    }
}

/// The text written back for a job: what the model generated, or a fixed
/// notice where generation failed.
pub open spec fn output_text(generated: Option<String>) -> Seq<char> {
    match generated {
        Some(t) => t@,
        None => "Error Generating output"@,
    }
}

/// What the model generated is written back whole and unchanged; only a
/// failed generation writes the notice.
pub proof fn lemma_generated_text_is_written_whole(t: String)
    ensures
        output_text(Some(t)) == t@,
        output_text(None) == "Error Generating output"@,
{
}

/// What is merged into the record once the model is done: its text, or a
/// fixed notice where it failed.
pub fn furfil_request(generated: Option<String>) -> (req: FurfilRequest)
    ensures
        req.output@ == output_text(generated),
        generated matches Some(t) ==> req.output@ == t@,
        generated is None ==> req.output@ == "Error Generating output"@,
{
    let output = match generated {
        Some(t) => t,
        None => String::from_str("Error Generating output"),
    };
    FurfilRequest { output }
}

} // verus!
