//! Errors surfaced by the engine.

use vstd::prelude::*;

verus! {

/// `std::io::Error`, carried through as it came.
#[verifier::external_type_specification]
#[verifier::external_body]
pub struct ExIoError(std::io::Error);

/// Errors surfaced by the engine. Every variant is local: there is no network
/// failure mode, because the engine never touches a network.
#[derive(Debug)]
pub enum EngineError {
    Capture(String),
    Transcribe(String),
    Notes(String),
    Io(std::io::Error),
}

impl From<std::io::Error> for EngineError {
    fn from(e: std::io::Error) -> (error: EngineError) {
        EngineError::Io(e)
    }
}

impl vstd::std_specs::convert::FromSpecImpl<std::io::Error> for EngineError {
    open spec fn obeys_from_spec() -> bool {
        true
    }

    open spec fn from_spec(e: std::io::Error) -> EngineError {
        EngineError::Io(e)
    }
}

/// Calls `ToString::to_string` on a `std::io::Error`. What the operating
/// system says of its errors differs from machine to machine, so nothing is
/// claimed of the text.
#[verifier::external_body]
fn io_error_text(e: &std::io::Error) -> (text: String) {
    e.to_string()
}

/// Whether `said` is something that [`io_error_text`] gives for the error.
pub closed spec fn system_says(e: std::io::Error, said: Seq<char>) -> bool {
    exists|text: String| #[trigger] call_ensures(io_error_text, (&e,), text) && text@ == said
}

/// An I/O error in words, given what the system says of it.
pub fn io_message(text: &str) -> (out: String)
    ensures
        out@ == "i/o error: "@ + text@,
{
    "i/o error: ".to_string().concat(text)
}

impl EngineError {
    /// The error in words. Of an I/O error it is [`io_message`] of whatever the
    /// system says.
    pub fn message(&self) -> (text: String)
        ensures
            match self {
                EngineError::Capture(e) => text@ == "audio capture failed: "@ + e@,
                EngineError::Transcribe(e) => text@ == "transcription failed: "@ + e@,
                EngineError::Notes(e) => text@ == "note generation failed: "@ + e@,
                EngineError::Io(e) => exists|said: Seq<char>| #[trigger]
                    system_says(*e, said) && text@ == "i/o error: "@ + said,
            },
    {
        match self {
            EngineError::Capture(e) => "audio capture failed: ".to_string().concat(e.as_str()),
            EngineError::Transcribe(e) => "transcription failed: ".to_string().concat(e.as_str()),
            EngineError::Notes(e) => "note generation failed: ".to_string().concat(e.as_str()),
            EngineError::Io(e) => {
                let said = io_error_text(e);
                assert(system_says(*e, said@));
                io_message(said.as_str())
            },
        }
    }
}

} // verus!
