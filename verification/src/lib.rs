//! The core of an on-device meeting scribe: everything that turns a
//! confidential conversation into structured notes on the operator's machine.
//!
//! Nothing in this crate performs I/O of any kind. It holds the decisions:
//! what is recorded and how it is laid out, how channels become a timeline,
//! how a transcript is cut up and put to the notes model, and how the model's
//! reply is read.

pub mod audio;
pub mod capture;
pub mod chunk;
pub mod duration;
pub mod error;
pub mod generation;
pub mod job;
pub mod json;
pub mod model;
pub mod notes;
pub mod prompt;
pub mod response;
pub mod scan;
pub mod text;
pub mod transcribe;
pub mod wire;

pub use duration::Duration;
pub use error::EngineError;
pub use model::{BillableDraft, NoteItem, Notes, RecordingScenario, Speaker, Transcript,
    TranscriptSegment};
pub use notes::{NotesGenerator, SidecarNotesGenerator};
pub use transcribe::Transcriber;
