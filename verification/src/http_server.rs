//! The HTTP interface: its greeting and its documentation generator. The
//! server itself runs outside.
use vstd::prelude::*;

verus! {

/// A request for documentation: the model to use and the code to document.
pub struct GenDocInput<'r> {
    pub model: &'r str,
    pub code: &'r str,
}

/// The documented code.
pub struct GenDocOutput<'r> {
    pub code: &'r str,
}

/// The greeting served at the root of the server.
pub fn index() -> (greeting: &'static str)
    ensures
        greeting@ == "Hello world!"@,
{
    "Hello world!"
}

/// The documentation generator. It is not written yet, and it never returns
/// documentation: instead of failing in the middle of a request (a panic),
/// it refuses every request with `None`, which the server answers with an
/// internal error, the same answer a failed handler gets.
pub fn gen_docs<'r>(input: GenDocInput<'r>) -> (out: Option<GenDocOutput<'r>>)
    ensures
        out is None,
{
    None
}

} // verus!
